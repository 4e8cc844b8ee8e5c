//! The names that the library looks up in dictionaries.

use vstd::prelude::*;

verus! {

/// The name "Root".
pub const ROOT: [u8; 4] = ['R' as u8, 'o' as u8, 'o' as u8, 't' as u8];

/// The name "Info".
pub const INFO: [u8; 4] = ['I' as u8, 'n' as u8, 'f' as u8, 'o' as u8];

/// The name "Producer".
pub const PRODUCER: [u8; 8] = [
    'P' as u8,
    'r' as u8,
    'o' as u8,
    'd' as u8,
    'u' as u8,
    'c' as u8,
    'e' as u8,
    'r' as u8,
];

/// The name "Parent".
pub const PARENT: [u8; 6] = ['P' as u8, 'a' as u8, 'r' as u8, 'e' as u8, 'n' as u8, 't' as u8];

/// The name "Count".
pub const COUNT: [u8; 5] = ['C' as u8, 'o' as u8, 'u' as u8, 'n' as u8, 't' as u8];

/// The name "Kids".
pub const KIDS: [u8; 4] = ['K' as u8, 'i' as u8, 'd' as u8, 's' as u8];

/// The name "Type".
pub const TYPE: [u8; 4] = ['T' as u8, 'y' as u8, 'p' as u8, 'e' as u8];

/// The name "Page".
pub const PAGE: [u8; 4] = ['P' as u8, 'a' as u8, 'g' as u8, 'e' as u8];

/// The name "Pages".
pub const PAGES: [u8; 5] = ['P' as u8, 'a' as u8, 'g' as u8, 'e' as u8, 's' as u8];

/// The name "Contents".
pub const CONTENTS: [u8; 8] = [
    'C' as u8,
    'o' as u8,
    'n' as u8,
    't' as u8,
    'e' as u8,
    'n' as u8,
    't' as u8,
    's' as u8,
];

/// The name "Length".
pub const LENGTH: [u8; 6] = ['L' as u8, 'e' as u8, 'n' as u8, 'g' as u8, 't' as u8, 'h' as u8];

/// The name "Filter".
pub const FILTER: [u8; 6] = ['F' as u8, 'i' as u8, 'l' as u8, 't' as u8, 'e' as u8, 'r' as u8];

/// The name "DecodeParms".
pub const DECODE_PARMS: [u8; 11] = [
    'D' as u8,
    'e' as u8,
    'c' as u8,
    'o' as u8,
    'd' as u8,
    'e' as u8,
    'P' as u8,
    'a' as u8,
    'r' as u8,
    'm' as u8,
    's' as u8,
];

/// The name "RunLengthDecode".
pub const RUN_LENGTH_DECODE: [u8; 15] = [
    'R' as u8,
    'u' as u8,
    'n' as u8,
    'L' as u8,
    'e' as u8,
    'n' as u8,
    'g' as u8,
    't' as u8,
    'h' as u8,
    'D' as u8,
    'e' as u8,
    'c' as u8,
    'o' as u8,
    'd' as u8,
    'e' as u8,
];

/// The name "Names".
pub const NAMES: [u8; 5] = ['N' as u8, 'a' as u8, 'm' as u8, 'e' as u8, 's' as u8];

/// The name "EmbeddedFiles".
pub const EMBEDDED_FILES: [u8; 13] = [
    'E' as u8,
    'm' as u8,
    'b' as u8,
    'e' as u8,
    'd' as u8,
    'd' as u8,
    'e' as u8,
    'd' as u8,
    'F' as u8,
    'i' as u8,
    'l' as u8,
    'e' as u8,
    's' as u8,
];

/// The name "EF".
pub const EF: [u8; 2] = ['E' as u8, 'F' as u8];

/// The name "F".
pub const F: [u8; 1] = ['F' as u8];

/// The name "Filespec".
pub const FILESPEC: [u8; 8] = [
    'F' as u8,
    'i' as u8,
    'l' as u8,
    'e' as u8,
    's' as u8,
    'p' as u8,
    'e' as u8,
    'c' as u8,
];

/// The name "DL".
pub const DL: [u8; 2] = ['D' as u8, 'L' as u8];

/// The name "Params".
pub const PARAMS: [u8; 6] = ['P' as u8, 'a' as u8, 'r' as u8, 'a' as u8, 'm' as u8, 's' as u8];

/// The name "Size".
pub const SIZE: [u8; 4] = ['S' as u8, 'i' as u8, 'z' as u8, 'e' as u8];

} // verus!
