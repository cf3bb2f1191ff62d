//! Database migration updates: a typed value to be written under a key, its
//! canonical byte framing, and its uppercase-hex wire form.
//!
//! A migration value travels as the uppercase hex of its framed bytes: the
//! 32-byte type hash, the payload length as a little-endian 32-bit word,
//! then the payload.  Framing and parsing are verified inverses; only the
//! hex alphabet conversion itself is delegated to an outside encoder.

use vstd::prelude::*;

verus! {


/// A storage key a migration update addresses.
#[derive(Debug, Clone, PartialEq, Eq)]
pub struct Key {
    pub path: String,
}

impl Key {
    /// Build a key from its path.
    pub fn from_path(path: String) -> (r: Key)
        ensures
            r.path@ == path@,
    {
        Key { path }
    }

    /// The key's path as text.
    pub fn to_text(&self) -> (r: String)
        ensures
            r@ == self.path@,
    {
        self.path.clone()
    }
}

/// The mathematical value of an [`UpdateValue`].
#[verifier::ext_equal]
pub ghost struct UpdateValueV {
    pub type_hash: Seq<u8>,
    pub bytes: Seq<u8>,
}

/// A value to be added to the database that can be validated: the hash of
/// its type and its serialized payload.
#[derive(Debug, Clone, PartialEq, Eq)]
pub struct UpdateValue {
    pub type_hash: Vec<u8>,
    pub bytes: Vec<u8>,
}

impl View for UpdateValue {
    type V = UpdateValueV;

    open spec fn view(&self) -> UpdateValueV {
        UpdateValueV { type_hash: self.type_hash@, bytes: self.bytes@ }
    }
}

/// The little-endian bytes of a 32-bit word.
pub open spec fn u32_le_bytes(x: u32) -> Seq<u8> {
    seq![
        (x & 0xff) as u8,
        ((x >> 8) & 0xff) as u8,
        ((x >> 16) & 0xff) as u8,
        ((x >> 24) & 0xff) as u8,
    ]
}

/// The word four little-endian bytes stand for.
pub open spec fn u32_from_le(d: Seq<u8>) -> int {
    d[0] + 0x100 * d[1] + 0x10000 * d[2] + 0x1000000 * d[3]
}

/// Reading back the little-endian bytes of a word recovers the word.
pub proof fn lemma_u32_le_roundtrip(x: u32)
    ensures
        u32_from_le(u32_le_bytes(x)) == x,
{
    let d = u32_le_bytes(x);
    assert((x & 0xff) < 256 && ((x >> 8) & 0xff) < 256 && ((x >> 16) & 0xff) < 256 && ((x >> 24)
        & 0xff) < 256) by (bit_vector);
    assert(d[0] == (x & 0xff) && d[1] == ((x >> 8) & 0xff) && d[2] == ((x >> 16) & 0xff) && d[3]
        == ((x >> 24) & 0xff));
    assert((x & 0xff) + 0x100 * ((x >> 8) & 0xff) + 0x10000 * ((x >> 16) & 0xff) + 0x1000000 * ((x
        >> 24) & 0xff) == x) by (bit_vector);
}

/// The canonical framed bytes of an update value.
pub open spec fn spec_frame(v: UpdateValueV) -> Seq<u8> {
    v.type_hash + u32_le_bytes(v.bytes.len() as u32) + v.bytes
}

/// Parse framed bytes back into an update value: 32 hash bytes, a length
/// word that must match exactly, then the payload.
pub open spec fn spec_parse(d: Seq<u8>) -> Option<UpdateValueV> {
    if d.len() < 36 {
        None
    } else {
        let cnt = u32_from_le(d.subrange(32, 36));
        if d.len() == 36 + cnt {
            Some(UpdateValueV { type_hash: d.subrange(0, 32), bytes: d.subrange(36, d.len() as int) })
        } else {
            None
        }
    }
}

/// Parsing a frame recovers the framed value.
pub proof fn lemma_frame_roundtrip(v: UpdateValueV)
    requires
        v.type_hash.len() == 32,
        v.bytes.len() <= u32::MAX,
    ensures
        spec_parse(spec_frame(v)) == Some(v),
{
    let d = spec_frame(v);
    assert(d.len() == 36 + v.bytes.len());
    assert(d.subrange(32, 36) =~= u32_le_bytes(v.bytes.len() as u32));
    lemma_u32_le_roundtrip(v.bytes.len() as u32);
    assert(u32_from_le(d.subrange(32, 36)) == v.bytes.len());
    assert(d.subrange(0, 32) =~= v.type_hash);
    assert(d.subrange(36, d.len() as int) =~= v.bytes);
    assert(spec_parse(d) == Some(UpdateValueV { type_hash: v.type_hash, bytes: v.bytes }));
    assert(UpdateValueV { type_hash: v.type_hash, bytes: v.bytes } =~= v);
}

impl UpdateValue {
    /// The type hash holds exactly 32 bytes.
    pub open spec fn wf(&self) -> bool {
        self.type_hash@.len() == 32
    }

    /// Build an update value; refused unless the hash holds 32 bytes.
    pub fn new(type_hash: Vec<u8>, bytes: Vec<u8>) -> (r: Option<UpdateValue>)
        ensures
            type_hash@.len() == 32 ==> (r matches Some(v) && v@ == (UpdateValueV {
                type_hash: type_hash@,
                bytes: bytes@,
            }) && v.wf()),
            type_hash@.len() != 32 ==> r is None,
    {
        if type_hash.len() == 32 {
            Some(UpdateValue { type_hash, bytes })
        } else {
            None
        }
    }

    /// The canonical framed bytes: hash, length word, payload.
    pub fn to_bytes(&self) -> (r: Vec<u8>)
        requires
            self.wf(),
            self.bytes@.len() <= u32::MAX,
        ensures
            r@ == spec_frame(self@),
    {
        let mut out: Vec<u8> = Vec::new();
        let n = self.type_hash.len();
        let mut i: usize = 0;
        while i < n
            invariant
                i <= n,
                n == self.type_hash@.len(),
                out@ == self.type_hash@.subrange(0, i as int),
            decreases n - i,
        {
            out.push(self.type_hash[i]);
            proof {
                assert(out@ =~= self.type_hash@.subrange(0, i + 1));
            }
            i = i + 1;
        }
        proof {
            assert(out@ =~= self.type_hash@);
        }
        let cnt = self.bytes.len() as u32;
        out.push((cnt & 0xff) as u8);
        out.push(((cnt >> 8) & 0xff) as u8);
        out.push(((cnt >> 16) & 0xff) as u8);
        out.push(((cnt >> 24) & 0xff) as u8);
        proof {
            assert(out@ =~= self.type_hash@ + u32_le_bytes(cnt));
        }
        let ghost header = self.type_hash@ + u32_le_bytes(cnt);
        let m = self.bytes.len();
        let mut j: usize = 0;
        while j < m
            invariant
                j <= m,
                m == self.bytes@.len(),
                out@ == header + self.bytes@.subrange(0, j as int),
            decreases m - j,
        {
            out.push(self.bytes[j]);
            proof {
                assert(out@ =~= header + self.bytes@.subrange(0, j + 1));
            }
            j = j + 1;
        }
        proof {
            assert(out@ =~= spec_frame(self@));
        }
        out
    }

    /// Parse framed bytes; refused exactly when the framing is malformed.
    pub fn try_from_bytes(data: &Vec<u8>) -> (r: Option<UpdateValue>)
        ensures
            match r {
                Some(v) => spec_parse(data@) == Some(v@) && v.wf(),
                None => spec_parse(data@) is None,
            },
    {
        if data.len() < 36 {
            return None;
        }
        let b0 = data[32] as usize;
        let b1 = data[33] as usize;
        let b2 = data[34] as usize;
        let b3 = data[35] as usize;
        let cnt = b0 + 0x100 * b1 + 0x10000 * b2 + 0x1000000 * b3;
        proof {
            assert(data@.subrange(32, 36)[0] == data@[32]);
            assert(data@.subrange(32, 36)[1] == data@[33]);
            assert(data@.subrange(32, 36)[2] == data@[34]);
            assert(data@.subrange(32, 36)[3] == data@[35]);
            assert(cnt == u32_from_le(data@.subrange(32, 36)));
        }
        if data.len() - 36 != cnt {
            return None;
        }
        let mut hash: Vec<u8> = Vec::new();
        let mut i: usize = 0;
        while i < 32
            invariant
                i <= 32,
                data@.len() >= 36,
                hash@ == data@.subrange(0, i as int),
            decreases 32 - i,
        {
            hash.push(data[i]);
            proof {
                assert(hash@ =~= data@.subrange(0, i + 1));
            }
            i = i + 1;
        }
        let mut payload: Vec<u8> = Vec::new();
        let n = data.len();
        let mut j: usize = 36;
        while j < n
            invariant
                36 <= j <= n,
                n == data@.len(),
                payload@ == data@.subrange(36, j as int),
            decreases n - j,
        {
            payload.push(data[j]);
            proof {
                assert(payload@ =~= data@.subrange(36, j + 1));
            }
            j = j + 1;
        }
        proof {
            assert(hash@ =~= data@.subrange(0, 32));
            assert(payload@ =~= data@.subrange(36, data@.len() as int));
        }
        Some(UpdateValue { type_hash: hash, bytes: payload })
    }

    /// The wire form: the uppercase hex of the framed bytes.
    pub fn to_hex(&self) -> (r: String)
        requires
            self.wf(),
            self.bytes@.len() <= u32::MAX,
        ensures
            r@ == hex_upper_of(spec_frame(self@)),
    {
        let framed = self.to_bytes();
        hex_encode(&framed)
    }

    /// Read the wire form back; refused exactly when the text is not the
    /// uppercase hex of a well-formed frame.
    pub fn from_hex(s: &str) -> (r: Option<UpdateValue>)
        ensures
            match r {
                Some(v) => exists|d: Seq<u8>|
                    s@ == #[trigger] hex_upper_of(d) && spec_parse(d) == Some(v@) && v.wf(),
                None => forall|d: Seq<u8>|
                    s@ == #[trigger] hex_upper_of(d) ==> spec_parse(d) is None,
            },
    {
        match hex_decode(s) {
            None => {
                proof {
                    assert forall|d: Seq<u8>| s@ == #[trigger] hex_upper_of(d) implies spec_parse(
                        d,
                    ) is None by {
                        assert(!(exists|b: Seq<u8>| s@ == #[trigger] hex_upper_of(b)));
                    }
                }
                None
            },
            Some(decoded) => {
                let ghost d0 = decoded@;
                match UpdateValue::try_from_bytes(&decoded) {
                    Some(v) => Some(v),
                    None => {
                        proof {
                            assert forall|d: Seq<u8>|
                                s@ == #[trigger] hex_upper_of(d) implies spec_parse(d) is None by {
                                lemma_hex_upper_injective(d, d0);
                            }
                        }
                        None
                    },
                }
            },
        }
    }
}

/// One hex digit, uppercase.
pub open spec fn hex_digit(n: int) -> char {
    if n == 0 {
        '0'
    } else if n == 1 {
        '1'
    } else if n == 2 {
        '2'
    } else if n == 3 {
        '3'
    } else if n == 4 {
        '4'
    } else if n == 5 {
        '5'
    } else if n == 6 {
        '6'
    } else if n == 7 {
        '7'
    } else if n == 8 {
        '8'
    } else if n == 9 {
        '9'
    } else if n == 10 {
        'A'
    } else if n == 11 {
        'B'
    } else if n == 12 {
        'C'
    } else if n == 13 {
        'D'
    } else if n == 14 {
        'E'
    } else {
        'F'
    }
}

/// The uppercase hex of a byte sequence: two digits per byte, high first.
pub open spec fn hex_upper_of(d: Seq<u8>) -> Seq<char>
    decreases d.len(),
{
    if d.len() == 0 {
        Seq::empty()
    } else {
        hex_upper_of(d.drop_last()) + seq![
            hex_digit(d.last() as int / 16),
            hex_digit(d.last() as int % 16),
        ]
    }
}

/// Distinct digits render distinct characters.
proof fn lemma_hex_digit_injective(m: int, n: int)
    requires
        0 <= m < 16,
        0 <= n < 16,
        hex_digit(m) == hex_digit(n),
    ensures
        m == n,
{
}

/// Hex rendering is injective: equal text comes from equal bytes.
pub proof fn lemma_hex_upper_injective(a: Seq<u8>, b: Seq<u8>)
    requires
        hex_upper_of(a) == hex_upper_of(b),
    ensures
        a == b,
    decreases a.len(),
{
    lemma_hex_upper_len(a);
    lemma_hex_upper_len(b);
    if a.len() == 0 {
        assert(b.len() == 0);
        assert(a =~= b);
    } else {
        let pa = a.drop_last();
        let pb = b.drop_last();
        let ea = hex_upper_of(a);
        let eb = hex_upper_of(b);
        lemma_hex_upper_len(pa);
        lemma_hex_upper_len(pb);
        assert(ea[ea.len() - 2] == hex_digit(a.last() as int / 16));
        assert(ea[ea.len() - 1] == hex_digit(a.last() as int % 16));
        assert(eb[eb.len() - 2] == hex_digit(b.last() as int / 16));
        assert(eb[eb.len() - 1] == hex_digit(b.last() as int % 16));
        lemma_hex_digit_injective(a.last() as int / 16, b.last() as int / 16);
        lemma_hex_digit_injective(a.last() as int % 16, b.last() as int % 16);
        vstd::arithmetic::div_mod::lemma_fundamental_div_mod(a.last() as int, 16);
        vstd::arithmetic::div_mod::lemma_fundamental_div_mod(b.last() as int, 16);
        assert(a.last() == b.last());
        assert(hex_upper_of(pa) =~= hex_upper_of(pb)) by {
            assert forall|k: int| 0 <= k < hex_upper_of(pa).len() implies (
            #[trigger] hex_upper_of(pa)[k]) == hex_upper_of(pb)[k] by {
                assert(ea[k] == eb[k]);
            }
        }
        lemma_hex_upper_injective(pa, pb);
        assert(a.len() == b.len());
        assert forall|k: int| 0 <= k < a.len() implies a[k] == b[k] by {
            if k < a.len() - 1 {
                assert(pa[k] == pb[k]);
            }
        }
        assert(a =~= b);
    }
}

/// Each byte renders two characters.
pub proof fn lemma_hex_upper_len(d: Seq<u8>)
    ensures
        hex_upper_of(d).len() == 2 * d.len(),
    decreases d.len(),
{
    if d.len() > 0 {
        lemma_hex_upper_len(d.drop_last());
    }
}

/// Relies on `data_encoding::HEXUPPER.encode`: renders each input byte as
/// two uppercase hex characters, high nibble first.
#[verifier::external_body]
fn hex_encode(bytes: &Vec<u8>) -> (r: String)
    ensures
        r@ == hex_upper_of(bytes@),
{
    data_encoding::HEXUPPER.encode(bytes)
}

/// Relies on `data_encoding::HEXUPPER.decode`: accepts exactly the strings
/// that uppercase-hex encoding produces, and returns their preimage.
#[verifier::external_body]
fn hex_decode(s: &str) -> (r: Option<Vec<u8>>)
    ensures
        match r {
            Some(b) => s@ == hex_upper_of(b@),
            None => !(exists|b: Seq<u8>| s@ == #[trigger] hex_upper_of(b)),
        },
{
    data_encoding::HEXUPPER.decode(s.as_bytes()).ok()
}

/// An update to the database.
#[derive(Debug, Clone, PartialEq, Eq)]
pub enum DbUpdateType {
    Add { key: Key, value: UpdateValue, force: bool },
    Delete(Key),
    RepeatAdd { pattern: String, value: UpdateValue, force: bool },
    RepeatDelete(String),
}

impl DbUpdateType {
    /// Get the key (or key pattern) being modified.
    pub fn key(&self) -> (r: String)
        ensures
            r@ == match self {
                DbUpdateType::Add { key, .. } => key.path@,
                DbUpdateType::Delete(key) => key.path@,
                DbUpdateType::RepeatAdd { pattern, .. } => pattern@,
                DbUpdateType::RepeatDelete(pattern) => pattern@,
            },
    {
        match self {
            DbUpdateType::Add { key, .. } => key.path.clone(),
            DbUpdateType::Delete(key) => key.path.clone(),
            DbUpdateType::RepeatAdd { pattern, .. } => pattern.clone(),
            DbUpdateType::RepeatDelete(pattern) => pattern.clone(),
        }
    }
}

/// A batch of database updates.
#[derive(Debug, Clone)]
pub struct DbChanges {
    pub changes: Vec<DbUpdateType>,
}

/// What applying one update did: which keys were deleted, or which keys
/// were written with which rendered value.
#[derive(Debug, Clone, PartialEq, Eq)]
pub enum UpdateStatus {
    Deleted(Vec<String>),
    Add(Vec<(String, String)>),
}

} // verus!
