//! Pattern-matching engine: a byte-code regular expression VM, a rule
//! condition runtime with its scanner driver, and a Mach-O file parser.

pub mod bitmap;
pub mod bytes;
pub mod condition;
pub mod layout;
pub mod leb128;
pub mod macho;
pub mod macho_cmds;
pub mod macho_codesign;
pub mod macho_fields;
pub mod macho_linkedit;
pub mod marks;
pub mod pikevm;
pub mod re_code;
pub mod re_compile;
pub mod rules;
pub mod scanner;
