//! Tables: their identities, and what the catalog says of each.
use vstd::prelude::*;
use vstd::string::*;

use crate::codec;
use crate::codec::{put_text, put_u64, take_text, take_u64, CodecError};
use crate::error::{Fault, StoreError};
use crate::page::PageId;
use crate::tuple;
use crate::tuple::{DBIdType, Key, Row, Tuple};

verus! {

/// A table's number.
#[derive(Clone, Copy, Debug, PartialEq, PartialOrd, Eq, Hash, Structural)]
pub struct TableIdType(pub u64);

impl From<u64> for TableIdType {
    fn from(n: u64) -> (id: TableIdType) {
        TableIdType(n)
    }
}

impl vstd::std_specs::convert::FromSpecImpl<u64> for TableIdType {
    open spec fn obeys_from_spec() -> bool {
        true
    }

    open spec fn from_spec(n: u64) -> TableIdType {
        TableIdType(n)
    }
}

/// What the catalog says of a table.
#[derive(Debug)]
pub struct Table {
    pub id: TableIdType,
    pub name: String,
    pub first_index_page: PageId,
    pub first_data_page: PageId,
    /// The most bytes that an entry of the table's index may take.
    pub index_entry_size: u64,
}

/// A table, as values.
#[verifier::ext_equal]
pub struct Tab {
    pub id: TableIdType,
    pub name: Seq<char>,
    pub first_index_page: PageId,
    pub first_data_page: PageId,
    pub index_entry_size: u64,
}

impl View for Table {
    type V = Tab;

    open spec fn view(&self) -> Tab {
        Tab {
            id: self.id,
            name: self.name@,
            first_index_page: self.first_index_page,
            first_data_page: self.first_data_page,
            index_entry_size: self.index_entry_size,
        }
    }
}

impl Clone for Table {
    fn clone(&self) -> (t: Table)
        ensures
            t@ == self@,
    {
        Table {
            id: self.id,
            name: self.name.as_str().to_owned(),
            first_index_page: self.first_index_page,
            first_data_page: self.first_data_page,
            index_entry_size: self.index_entry_size,
        }
    }
}

/// Tables as values.
pub open spec fn tabs(s: Seq<Table>) -> Seq<Tab> {
    s.map_values(|t: Table| t@)
}

/// A table's bytes in the catalog.
pub open spec fn enc_table(t: Tab) -> Seq<u8> {
    codec::varint(t.id.0 as nat) + (codec::enc_text(t.name) + (codec::varint(
        t.first_index_page.0 as nat,
    ) + (codec::varint(t.first_data_page.0 as nat) + codec::varint(t.index_entry_size as nat))))
}

/// The table at the front of `s`.
pub open spec fn take_table_spec(s: Seq<u8>) -> Result<Tab, CodecError> {
    match codec::take_u64_spec(s) {
        Err(e) => Err(e),
        Ok((id, s)) => match codec::take_text_spec(s) {
            Err(e) => Err(e),
            Ok((name, s)) => match codec::take_u64_spec(s) {
                Err(e) => Err(e),
                Ok((index, s)) => match codec::take_u64_spec(s) {
                    Err(e) => Err(e),
                    Ok((data, s)) => match codec::take_u64_spec(s) {
                        Err(e) => Err(e),
                        Ok((size, _)) => Ok(
                            Tab {
                                id: TableIdType(id),
                                name,
                                first_index_page: PageId(index),
                                first_data_page: PageId(data),
                                index_entry_size: size,
                            },
                        ),
                    },
                },
            },
        },
    }
}

/// What the catalog says of a table reads back.
pub proof fn table_round_trip(t: Tab, rest: Seq<u8>)
    requires
        vstd::utf8::encode_utf8(t.name).len() < codec::WIDE,
    ensures
        take_table_spec(enc_table(t) + rest) == Ok::<Tab, CodecError>(t),
{
    let a = codec::varint(t.id.0 as nat);
    let b = codec::enc_text(t.name);
    let c = codec::varint(t.first_index_page.0 as nat);
    let d = codec::varint(t.first_data_page.0 as nat);
    let e = codec::varint(t.index_entry_size as nat);
    codec::regroup(d, e, rest);
    codec::regroup(c, d + e, rest);
    codec::regroup(b, c + (d + e), rest);
    codec::regroup(a, b + (c + (d + e)), rest);
    codec::u64_round_trip(t.id.0, b + (c + (d + (e + rest))));
    codec::text_round_trip(t.name, c + (d + (e + rest)));
    codec::u64_round_trip(t.first_index_page.0, d + (e + rest));
    codec::u64_round_trip(t.first_data_page.0, e + rest);
    codec::u64_round_trip(t.index_entry_size, rest);
}

/// What the index says of a row: its key, and where the table's data begins.
pub open spec fn entry_row(t: Tab, k: Key) -> Row {
    Row {
        id: k,
        txn_id: None,
        pre_lsn: None,
        data: codec::varint(t.first_data_page.0 as nat),
        tombstone: false,
    }
}

/// Why the index has no room for a key, if it has none: the entry takes more
/// bytes than the table gives to one.
pub open spec fn entry_fault(t: Tab, k: Key) -> Option<Fault> {
    let n = tuple::enc_row(entry_row(t, k)).len();
    let max =
        #[verifier::truncate]
        (t.index_entry_size as usize);
    if n > max {
        Some(Fault::TupleTooLarge(n as u64, max))
    } else {
        None
    }
}

impl Table {
    /// The table's bytes in the catalog.
    pub fn to_bytes(&self) -> (out: Vec<u8>)
        ensures
            out@ == enc_table(self@),
    {
        let mut out: Vec<u8> = Vec::new();
        put_u64(&mut out, self.id.0);
        put_text(&mut out, self.name.as_str());
        put_u64(&mut out, self.first_index_page.0);
        put_u64(&mut out, self.first_data_page.0);
        put_u64(&mut out, self.index_entry_size);
        assert(out@ =~= enc_table(self@));
        out
    }

    /// Reads a table's bytes.
    pub fn from_bytes(bytes: &[u8]) -> (r: Result<Table, CodecError>)
        ensures
            match (r, take_table_spec(bytes@)) {
                (Ok(t), Ok(w)) => t@ == w,
                (Err(e), Err(f)) => e == f,
                _ => false,
            },
    {
        let (id, rest) = match take_u64(bytes) {
            Ok(x) => x,
            Err(e) => {
                return Err(e);
            },
        };
        let (name, rest) = match take_text(rest) {
            Ok(x) => x,
            Err(e) => {
                return Err(e);
            },
        };
        let (index, rest) = match take_u64(rest) {
            Ok(x) => x,
            Err(e) => {
                return Err(e);
            },
        };
        let (data, rest) = match take_u64(rest) {
            Ok(x) => x,
            Err(e) => {
                return Err(e);
            },
        };
        match take_u64(rest) {
            Ok((size, _)) => Ok(
                Table {
                    id: TableIdType(id),
                    name,
                    first_index_page: PageId(index),
                    first_data_page: PageId(data),
                    index_entry_size: size,
                },
            ),
            Err(e) => Err(e),
        }
    }

    /// Fails if the index has no room for a key.
    pub fn check_entry(&self, key: &DBIdType) -> (r: Result<(), StoreError>)
        ensures
            match r {
                Ok(()) => entry_fault(self@, key@) is None,
                Err(e) => entry_fault(self@, key@) == Some(e@),
            },
    {
        let at = self.first_data_page.to_bytes();
        let entry = Tuple::new_with(key.clone(), at.as_slice(), None, None);
        assert(entry@ == entry_row(self@, key@));
        let n: usize = entry.size();
        let max: usize =
            #[verifier::truncate]
            (self.index_entry_size as usize);
        if n > max {
            Err(StoreError::TupleTooLarge(n as u64, max))
        } else {
            Ok(())
        }
    }
}

/// The index has room for a key exactly where the key's bytes, those of the
/// number of the first data page, and four bytes more are not more than the
/// table gives to an entry; otherwise the error says both.
pub proof fn index_has_room_for_the_key(t: Tab, k: Key)
    requires
        t.index_entry_size <= usize::MAX,
    ensures
        ({
            let n = tuple::enc_key(k).len() + codec::varint(t.first_data_page.0 as nat).len() + 4;
            &&& entry_fault(t, k) is None <==> n <= t.index_entry_size
            &&& n > t.index_entry_size ==> entry_fault(t, k) == Some(
                Fault::TupleTooLarge(n as u64, t.index_entry_size as usize),
            )
        }),
{
    codec::varint_limits();
    codec::varint_len(t.first_data_page.0 as nat, 10, 1);
    let at = codec::varint(t.first_data_page.0 as nat);
    assert(codec::varint(at.len()).len() == 1);
}

} // verus!
