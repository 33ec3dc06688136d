//! Heterogeneous key-value maps with a generic document wire format.
//!
//! A caller holds a fixed-length sequence of differently shaped elements and
//! turns it into a *document*: an ordered list of key/value entries, the
//! library's picture of a JSON-like object. Two independent codecs share that
//! shape:
//!
//! - the *positional* map ([`hmap`]) pairs each element with its own key value
//!   and decodes by entry position, never by key;
//! - the *labelled* map ([`hlabeledlist`]) draws each element's key from a
//!   label fixed per slot, decodes by a linear label scan, tolerates unknown
//!   keys and reports the label of a missing required slot.
//!
//! Elements are carried as tagged [`value::Value`]s, so one set of verified
//! functions covers every sequence shape. Reading or writing a concrete text
//! format (such as JSON) is left to the caller; the codecs begin and end at
//! the document.

pub mod hlabeledlist;
pub mod hmap;
pub mod value;
