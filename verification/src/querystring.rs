//! The query-string decoder: splitting a request target, tokenizing the query
//! component and percent-decoding its keys and values.

use vstd::prelude::*;

verus! {

/// The byte `%`, which opens a percent escape.
pub const PERCENT: u8 = 37;

/// The byte `&`, which separates key/value pairs.
pub const AMPERSAND: u8 = 38;

/// The byte `=`, which separates a key from its value.
pub const EQUALS: u8 = 61;

/// The byte `?`, which separates the base path from the query component.
pub const QUESTION_MARK: u8 = 63;

/// An error raised while decoding a query string.
#[derive(Debug, Clone, Copy, PartialEq, Eq, Structural)]
pub enum DecodeError {
    /// A `%` escape was cut short by the end of the input.
    TruncatedEscape,
    /// The given byte followed a `%` but is not an ASCII hex digit.
    InvalidHexDigit(u8),
}

/// Whether `b` is an ASCII hex digit (`0-9`, `a-f` or `A-F`).
pub open spec fn is_hex_digit(b: u8) -> bool {
    (48 <= b && b <= 57) || (97 <= b && b <= 102) || (65 <= b && b <= 70)
}

/// The 4-bit value of the ASCII hex digit `b`.
pub open spec fn hex_digit_value(b: u8) -> u8 {
    if 48 <= b && b <= 57 {
        (b - 48) as u8
    } else if 97 <= b && b <= 102 {
        (b - 87) as u8
    } else if 65 <= b && b <= 70 {
        (b - 55) as u8
    } else {
        0
    }
}

/// Maps an ASCII hex digit to its 4-bit value.
fn percent_decode_nibble(nibble: u8) -> (r: Result<u8, DecodeError>)
    ensures
        r == (if is_hex_digit(nibble) {
            Ok::<u8, DecodeError>(hex_digit_value(nibble))
        } else {
            Err::<u8, DecodeError>(DecodeError::InvalidHexDigit(nibble))
        }),
{
    if 48 <= nibble && nibble <= 57 {
        Ok(nibble - 48)
    } else if 97 <= nibble && nibble <= 102 {
        Ok(nibble - 87)
    } else if 65 <= nibble && nibble <= 70 {
        Ok(nibble - 55)
    } else {
        Err(DecodeError::InvalidHexDigit(nibble))
    }
}

/// The byte a `%`-escape with hex digits `high` and `low` stands for.
pub open spec fn escaped_byte(high: u8, low: u8) -> u8 {
    (hex_digit_value(high) * 16 + hex_digit_value(low)) as u8
}

/// The percent-decoding of `s`: literal bytes are kept, and each `%` must be
/// followed by exactly two hex digits that encode one byte.  A `%` escape cut
/// short by the end of `s` or holding a non-hex byte fails the whole decode.
pub open spec fn percent_decoded(s: Seq<u8>) -> Result<Seq<u8>, DecodeError>
    decreases s.len(),
{
    if s.len() == 0 {
        Ok(Seq::empty())
    } else if s[0] == PERCENT {
        if s.len() < 3 {
            Err(DecodeError::TruncatedEscape)
        } else if !is_hex_digit(s[1]) {
            Err(DecodeError::InvalidHexDigit(s[1]))
        } else if !is_hex_digit(s[2]) {
            Err(DecodeError::InvalidHexDigit(s[2]))
        } else {
            match percent_decoded(s.skip(3)) {
                Ok(tail) => Ok(seq![escaped_byte(s[1], s[2])] + tail),
                Err(e) => Err(e),
            }
        }
    } else {
        match percent_decoded(s.skip(1)) {
            Ok(tail) => Ok(seq![s[0]] + tail),
            Err(e) => Err(e),
        }
    }
}

/// Percent-decoding a buffer without a `%` returns it unchanged.
pub proof fn lemma_percent_decoded_without_escapes(s: Seq<u8>)
    requires
        forall|i: int| 0 <= i < s.len() ==> s[i] != PERCENT,
    ensures
        percent_decoded(s) == Ok::<Seq<u8>, DecodeError>(s),
    decreases s.len(),
{
    if s.len() == 0 {
        assert(s =~= Seq::<u8>::empty());
    } else {
        lemma_percent_decoded_without_escapes(s.skip(1));
        assert(seq![s[0]] + s.skip(1) =~= s);
    }
}

/// A non-empty buffer percent-decodes to a non-empty buffer: every literal
/// byte and every escape contributes one decoded byte.
pub proof fn lemma_percent_decoded_nonempty(s: Seq<u8>)
    requires
        s.len() > 0,
    ensures
        percent_decoded(s) matches Ok(d) ==> d.len() > 0,
{
}

/// The index of the first occurrence of `b` in `s`, or `s.len()` if `s` does
/// not contain `b`.
pub open spec fn first_index_of(s: Seq<u8>, b: u8) -> int
    decreases s.len(),
{
    if s.len() == 0 {
        0
    } else if s[0] == b {
        0
    } else {
        1 + first_index_of(s.skip(1), b)
    }
}

/// `first_index_of` is characterized by its two defining facts: no occurrence
/// of `b` before `k`, and `b` at `k` unless `k` is the end.
pub proof fn lemma_first_index_of(s: Seq<u8>, b: u8, k: int)
    requires
        0 <= k <= s.len(),
        forall|j: int| 0 <= j < k ==> s[j] != b,
        k < s.len() ==> s[k] == b,
    ensures
        first_index_of(s, b) == k,
    decreases k,
{
    if s.len() == 0 {
    } else if k == 0 {
    } else {
        assert(forall|j: int| 0 <= j < k - 1 ==> s.skip(1)[j] == s[j + 1] && s[j + 1] != b);
        assert(k - 1 < s.skip(1).len() ==> s.skip(1)[k - 1] == s[k]);
        lemma_first_index_of(s.skip(1), b, k - 1);
    }
}

/// `first_index_of` stays within the bounds of `s`.
pub proof fn lemma_first_index_of_bounds(s: Seq<u8>, b: u8)
    ensures
        0 <= first_index_of(s, b) <= s.len(),
    decreases s.len(),
{
    if s.len() == 0 {
    } else if s[0] == b {
    } else {
        lemma_first_index_of_bounds(s.skip(1), b);
    }
}

/// Bridges an occurrence search over `s[from..]` to `first_index_of` on the
/// suffix of `s` that starts at `from`.
proof fn lemma_first_index_of_within(s: Seq<u8>, b: u8, from: int, r: int)
    requires
        0 <= from <= r <= s.len(),
        forall|j: int| from <= j < r ==> s[j] != b,
        r < s.len() ==> s[r] == b,
    ensures
        first_index_of(s.skip(from), b) == r - from,
{
    assert(forall|j: int| 0 <= j < r - from ==> s.skip(from)[j] == s[j + from]);
    assert(r - from < s.skip(from).len() ==> s.skip(from)[r - from] == s[r]);
    lemma_first_index_of(s.skip(from), b, r - from);
}

/// The key/value pair a raw `&`-delimited token stands for: the part before
/// the first `=` is the raw key, the part after it is the raw value (empty if
/// there is no `=`), and both are percent-decoded.  A token with an empty raw
/// key is discarded and yields no pair.
pub open spec fn decoded_pair(tok: Seq<u8>) -> Result<Option<(Seq<u8>, Seq<u8>)>, DecodeError> {
    let j = first_index_of(tok, EQUALS);
    let raw_key = tok.take(j);
    let raw_value = if j < tok.len() {
        tok.skip(j + 1)
    } else {
        Seq::empty()
    };
    if raw_key.len() == 0 {
        Ok(None)
    } else {
        match percent_decoded(raw_key) {
            Err(e) => Err(e),
            Ok(key) => match percent_decoded(raw_value) {
                Err(e) => Err(e),
                Ok(value) => Ok(Some((key, value))),
            },
        }
    }
}

/// The field map a raw query component decodes to: the query is split on `&`
/// into tokens, each token yields at most one key/value pair, and a later
/// pair with the same key overwrites an earlier one.
pub open spec fn decoded_fields(q: Seq<u8>) -> Result<Map<Seq<u8>, Seq<u8>>, DecodeError>
    decreases q.len(),
{
    if q.len() == 0 {
        Ok(Map::empty())
    } else {
        let i = first_index_of(q, AMPERSAND);
        let rest = if 0 <= i && i < q.len() {
            decoded_fields(q.skip(i + 1))
        } else {
            Ok(Map::empty())
        };
        match decoded_pair(q.take(i)) {
            Err(e) => Err(e),
            Ok(pair) => match rest {
                Err(e) => Err(e),
                Ok(m) => Ok(
                    match pair {
                        Some(kv) => if m.dom().contains(kv.0) {
                            m
                        } else {
                            m.insert(kv.0, kv.1)
                        },
                        None => m,
                    },
                ),
            },
        }
    }
}

/// What a raw request target decodes to: the base path before the first `?`,
/// and the field map of the query component after it (empty if there is no
/// `?`).  Only the first `?` is a delimiter; later ones are ordinary data.
pub open spec fn decoded_target(t: Seq<u8>) -> Result<
    (Seq<u8>, Map<Seq<u8>, Seq<u8>>),
    DecodeError,
> {
    let i = first_index_of(t, QUESTION_MARK);
    let q = if i < t.len() {
        t.skip(i + 1)
    } else {
        Seq::empty()
    };
    match decoded_fields(q) {
        Ok(m) => Ok((t.take(i), m)),
        Err(e) => Err(e),
    }
}

/// A target without a `?` decodes to itself as the base path, with no fields.
pub proof fn lemma_decode_without_query(t: Seq<u8>)
    requires
        forall|i: int| 0 <= i < t.len() ==> t[i] != QUESTION_MARK,
    ensures
        decoded_target(t) == Ok::<(Seq<u8>, Map<Seq<u8>, Seq<u8>>), DecodeError>(
            (t, Map::empty()),
        ),
{
    lemma_first_index_of(t, QUESTION_MARK, t.len() as int);
    assert(t.take(t.len() as int) =~= t);
}

/// Splitting happens at the first `?` only: everything before it is the base
/// path, and everything after it — later `?` bytes included — is the query
/// component the fields are decoded from.
pub proof fn lemma_decode_splits_at_first_question_mark(t: Seq<u8>, i: int)
    requires
        0 <= i < t.len(),
        t[i] == QUESTION_MARK,
        forall|j: int| 0 <= j < i ==> t[j] != QUESTION_MARK,
    ensures
        decoded_target(t) == (match decoded_fields(t.skip(i + 1)) {
            Ok(m) => Ok::<(Seq<u8>, Map<Seq<u8>, Seq<u8>>), DecodeError>((t.take(i), m)),
            Err(e) => Err::<(Seq<u8>, Map<Seq<u8>, Seq<u8>>), DecodeError>(e),
        }),
{
    lemma_first_index_of(t, QUESTION_MARK, i);
}

/// No query component decodes to a field map with an empty key: a token whose
/// raw key is empty is discarded, and a non-empty raw key percent-decodes to
/// a non-empty key.
pub proof fn lemma_decoded_fields_keys_nonempty(q: Seq<u8>)
    ensures
        decoded_fields(q) matches Ok(m) ==> !m.dom().contains(Seq::<u8>::empty()),
    decreases q.len(),
{
    if q.len() == 0 {
    } else {
        let i = first_index_of(q, AMPERSAND);
        lemma_first_index_of_bounds(q, AMPERSAND);
        if 0 <= i && i < q.len() {
            lemma_decoded_fields_keys_nonempty(q.skip(i + 1));
        }
        let tok = q.take(i);
        match decoded_pair(tok) {
            Ok(pair) => match pair {
                Some(kv) => {
                    let j = first_index_of(tok, EQUALS);
                    lemma_percent_decoded_nonempty(tok.take(j));
                },
                None => {},
            },
            Err(_) => {},
        }
    }
}

/// A decoded request target never maps an empty field key.
pub proof fn lemma_decoded_target_keys_nonempty(t: Seq<u8>)
    ensures
        decoded_target(t) matches Ok(p) ==> !p.1.dom().contains(Seq::<u8>::empty()),
{
    let i = first_index_of(t, QUESTION_MARK);
    lemma_first_index_of_bounds(t, QUESTION_MARK);
    if i < t.len() {
        lemma_decoded_fields_keys_nonempty(t.skip(i + 1));
    } else {
        lemma_decoded_fields_keys_nonempty(Seq::empty());
    }
}

/// The ASCII upper-case hex digit for the 4-bit value `v`.
pub open spec fn hex_digit_char(v: u8) -> u8 {
    if v < 10 {
        (48 + v) as u8
    } else {
        (55 + v) as u8
    }
}

/// The percent-encoding that escapes every byte of `s` as `%XX`.  The decoder
/// never produces it; it states the decoding round trip.
pub open spec fn percent_encoded(s: Seq<u8>) -> Seq<u8>
    decreases s.len(),
{
    if s.len() == 0 {
        Seq::empty()
    } else {
        seq![PERCENT, hex_digit_char(s[0] / 16), hex_digit_char(s[0] % 16)] + percent_encoded(
            s.skip(1),
        )
    }
}

/// Percent-decoding inverts percent-encoding: decoding the escaped form of
/// any byte sequence succeeds and yields that sequence back.
pub proof fn lemma_percent_round_trip(s: Seq<u8>)
    ensures
        percent_decoded(percent_encoded(s)) == Ok::<Seq<u8>, DecodeError>(s),
    decreases s.len(),
{
    if s.len() == 0 {
        assert(s =~= Seq::<u8>::empty());
    } else {
        let b = s[0];
        let h = hex_digit_char(b / 16);
        let l = hex_digit_char(b % 16);
        let e = percent_encoded(s);
        lemma_percent_round_trip(s.skip(1));
        assert(e[0] == PERCENT && e[1] == h && e[2] == l);
        assert(is_hex_digit(h) && is_hex_digit(l));
        assert(hex_digit_value(h) == b / 16 && hex_digit_value(l) == b % 16);
        assert(e.skip(3) =~= percent_encoded(s.skip(1)));
        assert(escaped_byte(h, l) == b) by {
            assert(b / 16 * 16 + b % 16 == b) by (nonlinear_arith);
        };
        assert(seq![b] + s.skip(1) =~= s);
    }
}

/// The keys of the pairs in `s` are pairwise distinct.
pub open spec fn keys_unique(s: Seq<(Vec<u8>, Vec<u8>)>) -> bool {
    forall|i: int, j: int| 0 <= i < j < s.len() ==> s[i].0@ != s[j].0@
}

/// No pair in `s` has an empty key.
pub open spec fn keys_nonempty(s: Seq<(Vec<u8>, Vec<u8>)>) -> bool {
    forall|i: int| 0 <= i < s.len() ==> s[i].0@.len() > 0
}

/// The fields still to be decoded once the tokens before position `p` of the
/// query component have been consumed.  A position one past the end arises
/// when the last token reaches the end of the query; nothing remains there.
pub open spec fn remaining_fields(q: Seq<u8>, p: int) -> Result<
    Map<Seq<u8>, Seq<u8>>,
    DecodeError,
> {
    if p <= q.len() {
        decoded_fields(q.skip(p))
    } else {
        Ok(Map::empty())
    }
}

/// The map a sequence of key/value pairs stands for; a later pair with the
/// same key overwrites an earlier one.
pub open spec fn assoc_map(s: Seq<(Vec<u8>, Vec<u8>)>) -> Map<Seq<u8>, Seq<u8>>
    decreases s.len(),
{
    if s.len() == 0 {
        Map::empty()
    } else {
        assoc_map(s.drop_last()).insert(s.last().0@, s.last().1@)
    }
}

/// Every pair of `s` is in `assoc_map(s)`, provided its key occurs only once.
proof fn lemma_assoc_map_contains(s: Seq<(Vec<u8>, Vec<u8>)>, i: int)
    requires
        keys_unique(s),
        0 <= i < s.len(),
    ensures
        assoc_map(s).contains_pair(s[i].0@, s[i].1@),
    decreases s.len(),
{
    if i == s.len() - 1 {
    } else {
        assert(keys_unique(s.drop_last()));
        lemma_assoc_map_contains(s.drop_last(), i);
        assert(s.last().0@ != s[i].0@);
    }
}

/// A key in `assoc_map(s)` occurs among the pairs of `s`.
proof fn lemma_assoc_map_key_occurs(s: Seq<(Vec<u8>, Vec<u8>)>, k: Seq<u8>)
    requires
        assoc_map(s).dom().contains(k),
    ensures
        exists|i: int| 0 <= i < s.len() && s[i].0@ == k,
    decreases s.len(),
{
    if s.len() == 0 {
    } else if s.last().0@ == k {
        assert(s[s.len() - 1].0@ == k);
    } else {
        lemma_assoc_map_key_occurs(s.drop_last(), k);
        let i = choose|i: int| 0 <= i < s.drop_last().len() && s.drop_last()[i].0@ == k;
        assert(s[i].0@ == k);
    }
}

/// Replacing the pair whose key is `kv.0` updates `assoc_map(s)` at that key.
proof fn lemma_assoc_map_update(s: Seq<(Vec<u8>, Vec<u8>)>, i: int, kv: (Vec<u8>, Vec<u8>))
    requires
        keys_unique(s),
        0 <= i < s.len(),
        s[i].0@ == kv.0@,
    ensures
        assoc_map(s.update(i, kv)) =~= assoc_map(s).insert(kv.0@, kv.1@),
        keys_unique(s.update(i, kv)),
    decreases s.len(),
{
    let s2 = s.update(i, kv);
    assert(forall|j: int| 0 <= j < s.len() && j != i ==> s2[j] == s[j]);
    if i == s.len() - 1 {
        assert(s2.drop_last() =~= s.drop_last());
        assert(s2.last() == kv);
        assert(assoc_map(s.drop_last()).insert(kv.0@, kv.1@) =~= assoc_map(s).insert(
            kv.0@,
            kv.1@,
        ));
    } else {
        assert(keys_unique(s.drop_last()));
        lemma_assoc_map_update(s.drop_last(), i, kv);
        assert(s2.drop_last() =~= s.drop_last().update(i, kv));
        assert(s2.last() == s.last());
        assert(s.last().0@ != kv.0@);
        assert(assoc_map(s.drop_last()).insert(kv.0@, kv.1@).insert(s.last().0@, s.last().1@)
            =~= assoc_map(s).insert(kv.0@, kv.1@));
    }
}

/// With pairwise distinct keys, `assoc_map(s)` has exactly one entry per pair.
proof fn lemma_assoc_map_len(s: Seq<(Vec<u8>, Vec<u8>)>)
    requires
        keys_unique(s),
    ensures
        assoc_map(s).dom().finite(),
        assoc_map(s).dom().len() == s.len(),
    decreases s.len(),
{
    if s.len() > 0 {
        assert(keys_unique(s.drop_last()));
        lemma_assoc_map_len(s.drop_last());
        if assoc_map(s.drop_last()).dom().contains(s.last().0@) {
            lemma_assoc_map_key_occurs(s.drop_last(), s.last().0@);
            let i = choose|i: int|
                0 <= i < s.drop_last().len() && s.drop_last()[i].0@ == s.last().0@;
            assert(s[i].0@ == s[s.len() - 1].0@);
            assert(false);
        }
    }
}

/// Compares two byte slices for equality.
fn bytes_equal(a: &[u8], b: &[u8]) -> (r: bool)
    ensures
        r <==> a@ == b@,
{
    if a.len() != b.len() {
        return false;
    }
    let mut i: usize = 0;
    while i < a.len()
        invariant
            a@.len() == b@.len(),
            i <= a@.len(),
            forall|j: int| 0 <= j < i ==> a@[j] == b@[j],
        decreases a@.len() - i,
    {
        if a[i] != b[i] {
            return false;
        }
        i += 1;
    }
    proof {
        assert(a@ =~= b@);
    }
    true
}

/// The index of the first occurrence of `b` in `s[from..to]`, or `to` if that
/// range does not contain `b`.
fn find_byte_in(s: &[u8], b: u8, from: usize, to: usize) -> (r: usize)
    requires
        from <= to <= s@.len(),
    ensures
        from <= r <= to,
        forall|j: int| from <= j < r ==> s@[j] != b,
        r < to ==> s@[r as int] == b,
{
    let mut i = from;
    while i < to
        invariant
            from <= i <= to <= s@.len(),
            forall|j: int| from <= j < i ==> s@[j] != b,
        decreases to - i,
    {
        if s[i] == b {
            return i;
        }
        i += 1;
    }
    to
}

/// Inserts a pair, overwriting the value of an equal key if one is present.
fn insert_field(fields: &mut Vec<(Vec<u8>, Vec<u8>)>, key: Vec<u8>, value: Vec<u8>)
    requires
        keys_unique(old(fields)@),
        keys_nonempty(old(fields)@),
        key@.len() > 0,
    ensures
        keys_unique(final(fields)@),
        keys_nonempty(final(fields)@),
        assoc_map(final(fields)@) == assoc_map(old(fields)@).insert(key@, value@),
{
    let n = fields.len();
    let mut i: usize = 0;
    while i < n
        invariant
            fields@ == old(fields)@,
            keys_unique(fields@),
            keys_nonempty(fields@),
            key@.len() > 0,
            n == fields@.len(),
            i <= n,
            forall|j: int| 0 <= j < i ==> fields@[j].0@ != key@,
        decreases n - i,
    {
        let hit = bytes_equal(fields[i].0.as_slice(), key.as_slice());
        if hit {
            let ghost prev = fields@;
            let ghost kview = key@;
            let ghost vview = value@;
            fields[i] = (key, value);
            proof {
                assert(fields@ == prev.update(i as int, fields@[i as int]));
                lemma_assoc_map_update(prev, i as int, fields@[i as int]);
                assert(forall|j: int|
                    0 <= j < fields@.len() && j != i ==> fields@[j] == prev[j]);
                assert(keys_nonempty(fields@));
                assert(assoc_map(fields@) =~= assoc_map(prev).insert(kview, vview));
            }
            return ;
        }
        i += 1;
    }
    let ghost prev = fields@;
    fields.push((key, value));
    proof {
        assert(fields@.drop_last() =~= prev);
        assert(fields@.last() == (key, value));
    }
}

/// A query string over the fields of a decoded request target.
#[derive(Debug, Clone)]
pub struct QueryString {
    /// The request base URL: everything before the first `?`.
    url: Vec<u8>,
    /// The decoded key/value pairs, with pairwise distinct, non-empty keys.
    fields: Vec<(Vec<u8>, Vec<u8>)>,
}

impl QueryString {
    /// The request base URL: the bytes of the target before the first `?`.
    pub closed spec fn base_path(&self) -> Seq<u8> {
        self.url@
    }

    /// The decoded fields as a map from key bytes to value bytes.
    pub closed spec fn field_map(&self) -> Map<Seq<u8>, Seq<u8>> {
        assoc_map(self.fields@)
    }

    /// Validity: the stored keys are pairwise distinct and non-empty.
    pub closed spec fn wf(&self) -> bool {
        keys_unique(self.fields@) && keys_nonempty(self.fields@)
    }

    /// The request base URL.
    pub fn url(&self) -> (r: &[u8])
        ensures
            r@ == self.base_path(),
    {
        self.url.as_slice()
    }

    /// Looks the decoded value of `key` up.
    pub fn get(&self, key: &[u8]) -> (r: Option<&Vec<u8>>)
        requires
            self.wf(),
        ensures
            match r {
                Some(v) => self.field_map().contains_pair(key@, v@),
                None => !self.field_map().dom().contains(key@),
            },
    {
        let n = self.fields.len();
        let mut i: usize = 0;
        while i < n
            invariant
                self.wf(),
                n == self.fields@.len(),
                i <= n,
                forall|j: int| 0 <= j < i ==> self.fields@[j].0@ != key@,
            decreases n - i,
        {
            let hit = bytes_equal(self.fields[i].0.as_slice(), key);
            if hit {
                proof {
                    lemma_assoc_map_contains(self.fields@, i as int);
                }
                return Some(&self.fields[i].1);
            }
            i += 1;
        }
        proof {
            if self.field_map().dom().contains(key@) {
                lemma_assoc_map_key_occurs(self.fields@, key@);
            }
        }
        None
    }

    /// The decoded pairs, for iteration: one pair per key of the field map,
    /// with that key's value.
    pub fn fields(&self) -> (r: &Vec<(Vec<u8>, Vec<u8>)>)
        requires
            self.wf(),
        ensures
            keys_unique(r@),
            keys_nonempty(r@),
            r@.len() == self.field_map().dom().len(),
            forall|i: int|
                0 <= i < r@.len() ==> #[trigger] self.field_map().contains_pair(
                    r@[i].0@,
                    r@[i].1@,
                ),
    {
        proof {
            lemma_assoc_map_len(self.fields@);
            assert forall|i: int| 0 <= i < self.fields@.len() implies #[trigger] self.field_map()
                .contains_pair(self.fields@[i].0@, self.fields@[i].1@) by {
                lemma_assoc_map_contains(self.fields@, i);
            };
        }
        &self.fields
    }

    /// The number of decoded fields.
    pub fn len(&self) -> (r: usize)
        requires
            self.wf(),
        ensures
            r == self.field_map().dom().len(),
    {
        proof {
            lemma_assoc_map_len(self.fields@);
        }
        self.fields.len()
    }

    /// Reconstructs the byte encoded by the two hex digits `high` and `low`.
    pub fn percent_decode_byte(high: u8, low: u8) -> (r: Result<u8, DecodeError>)
        ensures
            r == (if !is_hex_digit(high) {
                Err::<u8, DecodeError>(DecodeError::InvalidHexDigit(high))
            } else if !is_hex_digit(low) {
                Err::<u8, DecodeError>(DecodeError::InvalidHexDigit(low))
            } else {
                Ok::<u8, DecodeError>(escaped_byte(high, low))
            }),
    {
        let h = match percent_decode_nibble(high) {
            Ok(h) => h,
            Err(e) => {
                return Err(e);
            },
        };
        let l = match percent_decode_nibble(low) {
            Ok(l) => l,
            Err(e) => {
                return Err(e);
            },
        };
        assert(h * 16 + l <= 255) by {
            assert(h <= 15 && l <= 15);
        };
        Ok(h * 16 + l)
    }

    /// Splits a request target into its base URL and its decoded query fields.
    ///
    /// Everything before the first `?` is the base URL; the rest is split on
    /// `&` into tokens, each token is split on its first `=` into a raw key
    /// and a raw value, and both sides are percent-decoded.  Tokens with an
    /// empty raw key are discarded, and a later pair overwrites an earlier
    /// one with the same key.  The first malformed escape aborts the whole
    /// decode with its error.
    pub fn decode(target: &[u8]) -> (r: Result<QueryString, DecodeError>)
        ensures
            match r {
                Ok(qs) => qs.wf() && decoded_target(target@) == Ok::<
                    (Seq<u8>, Map<Seq<u8>, Seq<u8>>),
                    DecodeError,
                >((qs.base_path(), qs.field_map())),
                Err(e) => decoded_target(target@) == Err::<
                    (Seq<u8>, Map<Seq<u8>, Seq<u8>>),
                    DecodeError,
                >(e),
            },
    {
        let n = target.len();

        // Split the target on the first `?`.
        let qpos = find_byte_in(target, QUESTION_MARK, 0, n);
        proof {
            lemma_first_index_of(target@, QUESTION_MARK, qpos as int);
        }
        let url = vstd::slice::slice_to_vec(vstd::slice::slice_subrange(target, 0, qpos));
        let qstart = if qpos < n {
            qpos + 1
        } else {
            n
        };
        let query = vstd::slice::slice_to_vec(vstd::slice::slice_subrange(target, qstart, n));
        let ghost qseq = query@;
        proof {
            assert(url@ =~= target@.take(qpos as int));
            if qpos < n {
                assert(qseq =~= target@.skip(qpos + 1));
            } else {
                assert(qseq =~= Seq::<u8>::empty());
            }
        }

        // Decode the key/value pairs of the query component.
        let qn = query.len();
        let mut fields: Vec<(Vec<u8>, Vec<u8>)> = Vec::new();
        let mut p: usize = 0;
        proof {
            assert(qseq.skip(0) =~= qseq);
            match decoded_fields(qseq) {
                Ok(m) => {
                    assert(assoc_map(fields@).union_prefer_right(m) =~= m);
                },
                Err(_) => {},
            }
        }
        while p < qn
            invariant
                qseq == query@,
                qn == qseq.len(),
                p <= qn,
                keys_unique(fields@),
                keys_nonempty(fields@),
                first_index_of(target@, QUESTION_MARK) == qpos as int,
                qpos <= target@.len(),
                qseq == (if qpos < target@.len() {
                    target@.skip(qpos + 1)
                } else {
                    Seq::<u8>::empty()
                }),
                match remaining_fields(qseq, p as int) {
                    Ok(m) => decoded_fields(qseq) == Ok::<Map<Seq<u8>, Seq<u8>>, DecodeError>(
                        assoc_map(fields@).union_prefer_right(m),
                    ),
                    Err(e) => decoded_fields(qseq) == Err::<
                        Map<Seq<u8>, Seq<u8>>,
                        DecodeError,
                    >(e),
                },
            decreases qn - p,
        {
            let amp = find_byte_in(query.as_slice(), AMPERSAND, p, qn);
            let eqp = find_byte_in(query.as_slice(), EQUALS, p, amp);
            let ghost rem = qseq.skip(p as int);
            let ghost tok = qseq.subrange(p as int, amp as int);
            proof {
                lemma_first_index_of_within(qseq, AMPERSAND, p as int, amp as int);
                assert(rem.take(amp - p) =~= tok);
                assert(forall|j: int| 0 <= j < eqp - p ==> tok[j] == qseq[j + p]);
                assert(eqp - p < tok.len() ==> tok[eqp - p] == qseq[eqp as int]);
                lemma_first_index_of(tok, EQUALS, eqp - p);
                if amp < qn {
                    assert(rem.skip(amp - p + 1) =~= qseq.skip(amp + 1));
                }
            }
            if eqp == p {
                // The raw key is empty: the pair is discarded.
                proof {
                    assert(decoded_pair(tok) == Ok::<Option<(Seq<u8>, Seq<u8>)>, DecodeError>(
                        None,
                    ));
                    match remaining_fields(qseq, amp + 1) {
                        Ok(m2) => {
                            assert(decoded_fields(rem) == Ok::<
                                Map<Seq<u8>, Seq<u8>>,
                                DecodeError,
                            >(m2));
                        },
                        Err(e2) => {
                            assert(decoded_fields(rem) == Err::<
                                Map<Seq<u8>, Seq<u8>>,
                                DecodeError,
                            >(e2));
                        },
                    }
                }
                p = if amp < qn {
                    amp + 1
                } else {
                    proof {
                        assert(qseq.skip(qn as int) =~= Seq::<u8>::empty());
                    }
                    qn
                };
            } else {
                // Decode the raw key.
                let raw_key = vstd::slice::slice_subrange(query.as_slice(), p, eqp);
                proof {
                    assert(tok.take(eqp - p) =~= raw_key@);
                }
                let key = match Self::percent_decode(raw_key) {
                    Ok(k) => k,
                    Err(err) => {
                        proof {
                            assert(decoded_fields(rem) == Err::<
                                Map<Seq<u8>, Seq<u8>>,
                                DecodeError,
                            >(err));
                        }
                        return Err(err);
                    },
                };

                // Decode the raw value: everything after the first `=`, or
                // empty if the token has none.
                let vstart = if eqp < amp {
                    eqp + 1
                } else {
                    amp
                };
                let raw_value = vstd::slice::slice_subrange(query.as_slice(), vstart, amp);
                proof {
                    if eqp < amp {
                        assert(tok.skip(eqp - p + 1) =~= raw_value@);
                    } else {
                        assert(raw_value@ =~= Seq::<u8>::empty());
                    }
                }
                let value = match Self::percent_decode(raw_value) {
                    Ok(v) => v,
                    Err(err) => {
                        proof {
                            assert(decoded_fields(rem) == Err::<
                                Map<Seq<u8>, Seq<u8>>,
                                DecodeError,
                            >(err));
                        }
                        return Err(err);
                    },
                };

                // Insert the decoded pair.
                proof {
                    lemma_percent_decoded_nonempty(raw_key@);
                }
                let ghost c = assoc_map(fields@);
                let ghost kview = key@;
                let ghost vview = value@;
                proof {
                    assert(decoded_pair(tok) == Ok::<Option<(Seq<u8>, Seq<u8>)>, DecodeError>(
                        Some((kview, vview)),
                    ));
                }
                insert_field(&mut fields, key, value);
                proof {
                    match remaining_fields(qseq, amp + 1) {
                        Ok(m2) => {
                            let mp = if m2.dom().contains(kview) {
                                m2
                            } else {
                                m2.insert(kview, vview)
                            };
                            assert(decoded_fields(rem) == Ok::<
                                Map<Seq<u8>, Seq<u8>>,
                                DecodeError,
                            >(mp));
                            assert(assoc_map(fields@).union_prefer_right(m2)
                                =~= c.union_prefer_right(mp));
                        },
                        Err(e2) => {
                            assert(decoded_fields(rem) == Err::<
                                Map<Seq<u8>, Seq<u8>>,
                                DecodeError,
                            >(e2));
                        },
                    }
                }
                p = if amp < qn {
                    amp + 1
                } else {
                    proof {
                        assert(qseq.skip(qn as int) =~= Seq::<u8>::empty());
                    }
                    qn
                };
            }
        }
        proof {
            if p == qn {
                assert(qseq.skip(qn as int) =~= Seq::<u8>::empty());
            }
            assert(remaining_fields(qseq, p as int) == Ok::<Map<Seq<u8>, Seq<u8>>, DecodeError>(
                Map::<Seq<u8>, Seq<u8>>::empty(),
            ));
            assert(assoc_map(fields@).union_prefer_right(Map::empty()) =~= assoc_map(fields@));
        }
        Ok(QueryString { url, fields })
    }

    /// Percent-decodes the encoded data.
    ///
    /// The decoding either succeeds as a whole or fails with the error of the
    /// first malformed escape; no partial output is ever returned.
    pub fn percent_decode(encoded: &[u8]) -> (r: Result<Vec<u8>, DecodeError>)
        ensures
            match r {
                Ok(d) => percent_decoded(encoded@) == Ok::<Seq<u8>, DecodeError>(d@),
                Err(e) => percent_decoded(encoded@) == Err::<Seq<u8>, DecodeError>(e),
            },
    {
        let n = encoded.len();

        // Fast path: data without a single `%` decodes to itself.
        let mut needs_decode = false;
        let mut j: usize = 0;
        while j < n
            invariant
                n == encoded@.len(),
                j <= n,
                !needs_decode ==> forall|k: int| 0 <= k < j ==> encoded@[k] != PERCENT,
            decreases n - j,
        {
            if encoded[j] == PERCENT {
                needs_decode = true;
            }
            j += 1;
        }
        if !needs_decode {
            proof {
                lemma_percent_decoded_without_escapes(encoded@);
            }
            return Ok(vstd::slice::slice_to_vec(encoded));
        }

        // Slow path: copy byte by byte, reconstructing each escape.
        let mut decoded: Vec<u8> = Vec::new();
        let mut i: usize = 0;
        proof {
            assert(encoded@.skip(0) =~= encoded@);
            let t0 = percent_decoded(encoded@)->Ok_0;
            assert(decoded@ + t0 =~= t0);
        }
        while i < n
            invariant
                n == encoded@.len(),
                i <= n,
                match percent_decoded(encoded@.skip(i as int)) {
                    Ok(t) => percent_decoded(encoded@) == Ok::<Seq<u8>, DecodeError>(
                        decoded@ + t,
                    ),
                    Err(e) => percent_decoded(encoded@) == Err::<Seq<u8>, DecodeError>(e),
                },
            decreases n - i,
        {
            let ghost rem = encoded@.skip(i as int);
            proof {
                assert(rem.len() == n - i);
                assert(rem[0] == encoded@[i as int]);
            }
            let byte = encoded[i];
            if byte == PERCENT {
                if n - i < 3 {
                    proof {
                        assert(percent_decoded(rem) == Err::<Seq<u8>, DecodeError>(
                            DecodeError::TruncatedEscape,
                        ));
                    }
                    return Err(DecodeError::TruncatedEscape);
                }
                let high = encoded[i + 1];
                let low = encoded[i + 2];
                proof {
                    assert(rem[1] == encoded@[i + 1]);
                    assert(rem[2] == encoded@[i + 2]);
                }
                match Self::percent_decode_byte(high, low) {
                    Ok(b) => {
                        let ghost prev = decoded@;
                        decoded.push(b);
                        proof {
                            assert(rem.skip(3) =~= encoded@.skip(i + 3));
                            assert(b == escaped_byte(rem[1], rem[2]));
                            match percent_decoded(rem.skip(3)) {
                                Ok(t) => {
                                    assert(percent_decoded(rem) == Ok::<Seq<u8>, DecodeError>(
                                        seq![b] + t,
                                    ));
                                    assert(decoded@ + t =~= prev + (seq![b] + t));
                                },
                                Err(e) => {
                                    assert(percent_decoded(rem) == Err::<Seq<u8>, DecodeError>(
                                        e,
                                    ));
                                },
                            }
                        }
                        i += 3;
                    },
                    Err(e) => {
                        proof {
                            assert(percent_decoded(rem) == Err::<Seq<u8>, DecodeError>(e));
                        }
                        return Err(e);
                    },
                }
            } else {
                let ghost prev = decoded@;
                decoded.push(byte);
                proof {
                    assert(rem.skip(1) =~= encoded@.skip(i + 1));
                    match percent_decoded(rem.skip(1)) {
                        Ok(t) => {
                            assert(percent_decoded(rem) == Ok::<Seq<u8>, DecodeError>(
                                seq![byte] + t,
                            ));
                            assert(decoded@ + t =~= prev + (seq![byte] + t));
                        },
                        Err(e) => {
                            assert(percent_decoded(rem) == Err::<Seq<u8>, DecodeError>(e));
                        },
                    }
                }
                i += 1;
            }
        }
        proof {
            assert(encoded@.skip(n as int) =~= Seq::<u8>::empty());
            assert(decoded@ + Seq::<u8>::empty() =~= decoded@);
        }
        Ok(decoded)
    }
}

} // verus!

