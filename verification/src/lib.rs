//! Query-string decoding for HTTP request targets.
//!
//! A request target such as `/search?q=tree&ct=0` is split into its base path
//! and its query component; the query component is tokenized into key/value
//! pairs, each side is percent-decoded, and the result is exposed as a map
//! from byte-sequence keys to byte-sequence values together with typed
//! accessors over it.

pub mod querystring;
pub mod querystringext;
