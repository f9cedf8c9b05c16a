use vstd::prelude::*;
use vstd::string::StringExecFns;

use crate::text::{decimal, hex_text, push_decimal, push_hex, push_signed, signed_decimal};

verus! {

/// Errors produced while parsing or editing a save file.
#[allow(inconsistent_fields)]
#[derive(Debug, PartialEq, Eq)]
pub enum Error {
    /// The galaxy marker `VSYXALAG` ("GALAXYSV") was not found anywhere in
    /// the file: not a MOO3 save, or one from a different game version.
    NoGalaxyMarker,
    /// A structure declared more data than the file contains. The format
    /// has no checksums, so a mis-parse usually surfaces as a read past the
    /// end of the buffer.
    Truncated { offset: usize, needed: usize, len: usize },
    /// A system-name length field was implausible (0 or more than 200
    /// characters): the cursor lost sync in an earlier record.
    BadSystemName { offset: usize, len: u32 },
    /// The header magic `VS3RDAEH` is missing, so header fields cannot be
    /// located.
    NoHeaderMagic,
    /// The bytes at a region's offset no longer match the parsed record:
    /// the plan is stale or belongs to a different file.
    StaleRegion { offset: usize },
    /// A value cannot be represented in the save's wire format. `value` is
    /// the fixed-point value in 1/65536 units.
    ValueOutOfRange { what: &'static str, value: i64 },
    /// An empire's `PLAYERSV` record (which holds its treasury) could not be
    /// located by its name.
    EmpireRecordNotFound { name: String },
}


/// The message of an error (an out-of-range value is given in 1/65536
/// units).
pub open spec fn error_text(e: Error) -> Seq<char> {
    match e {
        Error::NoGalaxyMarker => "galaxy marker VSYXALAG not found (not a MOO3 save?)"@,
        Error::Truncated { offset, needed, len } => "truncated read: "@ + decimal(needed as nat)
            + " bytes at offset "@ + hex_text(offset as nat) + " (file len "@ + decimal(len as nat) + ")"@,
        Error::BadSystemName { offset, len } => "implausible system name length "@ + decimal(len as nat)
            + " at offset "@ + hex_text(offset as nat),
        Error::NoHeaderMagic => "header magic VS3RDAEH not found (not a MOO3 save?)"@,
        Error::StaleRegion { offset } => "region at offset "@ + hex_text(offset as nat)
            + " does not match the parsed record (stale plan or wrong file)"@,
        Error::ValueOutOfRange { what, value } => what@ + " "@ + signed_decimal(value as int)
            + " does not fit the save format's range"@,
        Error::EmpireRecordNotFound { name } => "empire record for \""@ + name@ + "\" not found in PLAYERSV"@,
    }
}

impl Error {
    /// The error's message.
    pub fn message(&self) -> (s: String)
        ensures
            s@ == error_text(*self),
    {
        match self {
            Error::NoGalaxyMarker => String::from_str("galaxy marker VSYXALAG not found (not a MOO3 save?)"),
            Error::Truncated { offset, needed, len } => {
                let mut s = String::from_str("truncated read: ");
                push_decimal(&mut s, *needed as u64);
                s.append(" bytes at offset ");
                push_hex(&mut s, *offset as u64);
                s.append(" (file len ");
                push_decimal(&mut s, *len as u64);
                s.append(")");
                s
            },
            Error::BadSystemName { offset, len } => {
                let mut s = String::from_str("implausible system name length ");
                push_decimal(&mut s, *len as u64);
                s.append(" at offset ");
                push_hex(&mut s, *offset as u64);
                s
            },
            Error::NoHeaderMagic => String::from_str("header magic VS3RDAEH not found (not a MOO3 save?)"),
            Error::StaleRegion { offset } => {
                let mut s = String::from_str("region at offset ");
                push_hex(&mut s, *offset as u64);
                s.append(" does not match the parsed record (stale plan or wrong file)");
                s
            },
            Error::ValueOutOfRange { what, value } => {
                let mut s = String::from_str(what);
                s.append(" ");
                push_signed(&mut s, *value);
                s.append(" does not fit the save format's range");
                s
            },
            Error::EmpireRecordNotFound { name } => {
                let mut s = String::from_str("empire record for \"");
                s.append(name.as_str());
                s.append("\" not found in PLAYERSV");
                s
            },
        }
    }
}

} // verus!
