//! The names of layer files, and where the files lie.
//!
//! An image layer file is named `<first key>-<end of key range>__<LSN>`, each
//! of the three in upper-case hexadecimal digits of fixed width.
use crate::bin_ser::{be_digits, be_value, lemma_be_digits_len, lemma_bound_fits,
    lemma_value_of_digits};
use crate::error::LayerError;
use crate::hex::{hex_decode, hex_encode, hex_value, is_hex_text, lemma_hex_round_trip};
use crate::lsn::Lsn;
use crate::repository::{Key, KEY_SIZE};
use crate::zid::{ZTenantId, ZTimelineId};
use std::ops::Range;
use vstd::prelude::*;
use vstd::string::*;

verus! {

/// The number of characters of the name of an image layer file.
pub const FILE_NAME_LEN: usize = 91;

/// What the name of an image layer file tells: the key range and the LSN.
#[derive(Debug, PartialEq, Eq)]
pub struct ImageFileName {
    pub key_range: Range<Key>,
    pub lsn: Lsn,
}

/// The name of the image layer of the keys from `start` to `end` at `lsn`.
pub open spec fn image_file_name(start: Seq<u8>, end: Seq<u8>, lsn: u64) -> Seq<char> {
    hex_encode(start, true) + seq!['-'] + hex_encode(end, true) + seq!['_', '_'] + hex_encode(
        be_digits(lsn as nat, 8),
        true,
    )
}

/// Whether `t` has the form of the name of an image layer file.
pub open spec fn is_image_file_name(t: Seq<char>) -> bool {
    &&& t.len() == FILE_NAME_LEN
    &&& is_hex_text(t.subrange(0, 36))
    &&& t[36] == '-'
    &&& is_hex_text(t.subrange(37, 73))
    &&& t[73] == '_'
    &&& t[74] == '_'
    &&& is_hex_text(t.subrange(75, 91))
}

/// The first key that the name `t` tells.
pub open spec fn file_name_start(t: Seq<char>) -> Seq<u8> {
    hex_decode(t.subrange(0, 36))
}

/// The end of the key range that the name `t` tells.
pub open spec fn file_name_end(t: Seq<char>) -> Seq<u8> {
    hex_decode(t.subrange(37, 73))
}

/// The LSN that the name `t` tells.
pub open spec fn file_name_lsn(t: Seq<char>) -> nat {
    be_value(hex_decode(t.subrange(75, 91)))
}

/// A name that was written from a key range and an LSN has the form of a
/// name and tells that key range and that LSN.
pub proof fn lemma_file_name_round_trip(start: Seq<u8>, end: Seq<u8>, lsn: u64)
    requires
        start.len() == KEY_SIZE,
        end.len() == KEY_SIZE,
    ensures
        is_image_file_name(image_file_name(start, end, lsn)),
        file_name_start(image_file_name(start, end, lsn)) == start,
        file_name_end(image_file_name(start, end, lsn)) == end,
        file_name_lsn(image_file_name(start, end, lsn)) == lsn,
{
    let t = image_file_name(start, end, lsn);
    let digits = be_digits(lsn as nat, 8);
    lemma_be_digits_len(lsn as nat, 8);
    lemma_bound_fits(lsn as nat, 8);
    lemma_value_of_digits(lsn as nat, 8);
    lemma_hex_round_trip(start, true);
    lemma_hex_round_trip(end, true);
    lemma_hex_round_trip(digits, true);
    assert(t.subrange(0, 36) =~= hex_encode(start, true));
    assert(t.subrange(37, 73) =~= hex_encode(end, true));
    assert(t.subrange(75, 91) =~= hex_encode(digits, true));
}

impl ImageFileName {
    /// The name of the file.
    pub fn to_string(&self) -> (name: String)
        ensures
            name@ == image_file_name(self.key_range.start@, self.key_range.end@, self.lsn.0),
    {
        let mut name = self.key_range.start.to_hex();
        proof {
            reveal_strlit("-");
            reveal_strlit("__");
        }
        name.append("-");
        name.append(self.key_range.end.to_hex().as_str());
        name.append("__");
        name.append(self.lsn.to_hex().as_str());
        assert(name@ =~= image_file_name(
            self.key_range.start@,
            self.key_range.end@,
            self.lsn.0,
        ));
        name
    }

    /// Reads the name of an image layer file.
    ///
    /// Fails on every text that does not have the form of such a name.
    pub fn parse_str(fname: &str) -> (r: Result<ImageFileName, LayerError>)
        ensures
            r matches Ok(name) ==> {
                &&& is_image_file_name(fname@)
                &&& name.key_range.start@ == file_name_start(fname@)
                &&& name.key_range.end@ == file_name_end(fname@)
                &&& name.lsn.0 == file_name_lsn(fname@)
            },
            r matches Err(e) ==> e == LayerError::Parse && !is_image_file_name(fname@),
    {
        let ghost t = fname@;
        if !fname.is_ascii() {
            proof {
                let i = choose|i: int| 0 <= i < t.len() && !('\0' <= #[trigger] t[i] <= '\u{7f}');
                if t.len() == FILE_NAME_LEN {
                    if i < 36 {
                        assert(hex_value(t.subrange(0, 36)[i]) is None);
                    } else if 37 <= i < 73 {
                        assert(hex_value(t.subrange(37, 73)[i - 37]) is None);
                    } else if 75 <= i {
                        assert(hex_value(t.subrange(75, 91)[i - 75]) is None);
                    }
                }
            }
            return Err(LayerError::Parse);
        }
        let raw = fname.as_bytes();
        proof {
            is_ascii_spec_bytes(fname);
        }
        if raw.len() != FILE_NAME_LEN {
            return Err(LayerError::Parse);
        }
        proof {
            assert('\0' <= t[36] <= '\u{7f}');
            assert('\0' <= t[73] <= '\u{7f}');
            assert('\0' <= t[74] <= '\u{7f}');
            assert(raw@[36] == t[36] as u8);
            assert(raw@[73] == t[73] as u8);
            assert(raw@[74] == t[74] as u8);
        }
        if raw[36] != 45 || raw[73] != 95 || raw[74] != 95 {
            return Err(LayerError::Parse);
        }
        let start = match Key::from_hex(fname.substring_ascii(0, 36)) {
            Ok(key) => key,
            Err(_) => {
                return Err(LayerError::Parse);
            },
        };
        let end = match Key::from_hex(fname.substring_ascii(37, 73)) {
            Ok(key) => key,
            Err(_) => {
                return Err(LayerError::Parse);
            },
        };
        let lsn = match Lsn::from_hex(fname.substring_ascii(75, 91)) {
            Ok(lsn) => lsn,
            Err(_) => {
                return Err(LayerError::Parse);
            },
        };
        Ok(ImageFileName { key_range: start..end, lsn })
    }
}

/// The settings of the server, as far as layers need them.
#[derive(Debug)]
pub struct PageServerConf {
    /// The directory under which everything lies.
    pub workdir: String,
}

/// The directory of a timeline under `workdir`.
pub open spec fn timeline_path_text(workdir: Seq<char>, tenant: Seq<u8>, timeline: Seq<u8>) -> Seq<
    char,
> {
    workdir + "/tenants/"@ + hex_encode(tenant, false) + "/timelines/"@ + hex_encode(
        timeline,
        false,
    )
}

/// The path of the file named `name` in the directory of a timeline under
/// `workdir`.
pub open spec fn layer_path_text(
    workdir: Seq<char>,
    tenant: Seq<u8>,
    timeline: Seq<u8>,
    name: Seq<char>,
) -> Seq<char> {
    timeline_path_text(workdir, tenant, timeline) + "/"@ + name
}

impl PageServerConf {
    /// The directory of the timeline `timelineid` of the tenant `tenantid`.
    pub fn timeline_path(&self, timelineid: &ZTimelineId, tenantid: &ZTenantId) -> (path: String)
        ensures
            path@ == timeline_path_text(self.workdir@, tenantid@, timelineid@),
    {
        let mut path = self.workdir.clone();
        path.append("/tenants/");
        path.append(tenantid.to_hex().as_str());
        path.append("/timelines/");
        path.append(timelineid.to_hex().as_str());
        assert(path@ =~= timeline_path_text(self.workdir@, tenantid@, timelineid@));
        path
    }

    /// The path of the image layer file `fname` of the timeline `timelineid`
    /// of the tenant `tenantid`.
    pub fn layer_path(
        &self,
        timelineid: &ZTimelineId,
        tenantid: &ZTenantId,
        fname: &ImageFileName,
    ) -> (path: String)
        ensures
            path@ == layer_path_text(
                self.workdir@,
                tenantid@,
                timelineid@,
                image_file_name(fname.key_range.start@, fname.key_range.end@, fname.lsn.0),
            ),
    {
        let mut path = self.timeline_path(timelineid, tenantid);
        path.append("/");
        path.append(fname.to_string().as_str());
        path
    }
}

/// Where the file of a layer lies: at a path given outright, or at the place
/// that the settings give to the layer.
#[derive(Debug)]
pub enum PathOrConf {
    Path(String),
    Conf(&'static PageServerConf),
}

} // verus!
