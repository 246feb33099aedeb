//! The ACPI tables the firmware hands over: the root pointer, the system description tables
//! and their checksums, read from the bytes where the firmware put them.
use vstd::prelude::*;
use crate::elf::sys::{le32, le64, read_u32, read_u64};

pub mod madt;

verus! {

/// Signature of the root system description pointer.
pub const ROOT_SIGNATURE: [u8; 8] = [0x52, 0x53, 0x44, 0x20, 0x50, 0x54, 0x52, 0x20];

/// The bytes of the root signature, `"RSD PTR "`.
pub open spec fn root_signature() -> Seq<u8> {
    seq![0x52u8, 0x53, 0x44, 0x20, 0x50, 0x54, 0x52, 0x20]
}

/// Why a table could not be read.
#[derive(Clone, Copy)]
pub enum AcpiError {
    InvalidRootSignature { found: [u8; 8] },
    InvalidTableSignature { expected: [u8; 4], found: [u8; 4] },
    /// The bytes do not add up to zero modulo 256: their sum, which is not zero.
    InvalidChecksum(u8),
}

/// Sum of the bytes of `s`.
pub open spec fn byte_sum(s: Seq<u8>) -> int
    decreases s.len(),
{
    if s.len() == 0 {
        0
    } else {
        byte_sum(s.drop_last()) + s.last()
    }
}

/// The checksum of `s`: the sum of its bytes modulo 256.
pub open spec fn checksum(s: Seq<u8>) -> int {
    byte_sum(s) % 256
}

/// Sum modulo 256 of the `len` bytes of `b` from `from`.
pub fn sum_bytes(b: &[u8], from: usize, len: usize) -> (r: u8)
    requires
        from + len <= b@.len(),
    ensures
        r == checksum(b@.subrange(from as int, from + len)),
{
    let n = b.len();
    let mut sum: u8 = 0;
    let mut i: usize = 0;
    while i < len
        invariant
            i <= len,
            n == b@.len(),
            from + len <= b@.len(),
            sum == checksum(b@.subrange(from as int, from + i)),
        decreases len - i,
    {
        let ghost before = b@.subrange(from as int, from + i);
        proof {
            let after = b@.subrange(from as int, from + i + 1);
            assert(after.drop_last() =~= before);
            assert(after.last() == b@[from + i]);
        }
        sum = sum.wrapping_add(b[from + i]);
        i = i + 1;
    }
    sum
}

/// The root system description pointer of ACPI 1.0.
#[derive(Clone, Copy)]
pub struct Rsdp {
    pub signature: [u8; 8],
    pub checksum: u8,
    pub oem_id: [u8; 6],
    pub revision: u8,
    /// Physical address of the root system description table, 32 bits on any machine.
    pub rsdt_addr: u32,
}

/// Bytes of [`Rsdp`].
pub const RSDP_SIZE: usize = 20;

/// `r` is the root pointer held by the 20 bytes at `o` in `s`.
pub open spec fn rsdp_at(r: Rsdp, s: Seq<u8>, o: int) -> bool {
    &&& r.signature@ == s.subrange(o, o + 8)
    &&& r.checksum == s[o + 8]
    &&& r.oem_id@ == s.subrange(o + 9, o + 15)
    &&& r.revision == s[o + 15]
    &&& r.rsdt_addr == le32(s, o + 16)
}

/// What reading a root pointer from `s` gives: an error, or the pointer is well formed.
pub open spec fn rsdp_check(s: Seq<u8>) -> Option<AcpiError> {
    if s.subrange(0, 8) != root_signature() {
        Some(AcpiError::InvalidRootSignature { found: choose|f: [u8; 8]| f@ == s.subrange(0, 8) })
    } else if checksum(s.subrange(0, RSDP_SIZE as int)) != 0 {
        Some(AcpiError::InvalidChecksum(checksum(s.subrange(0, RSDP_SIZE as int)) as u8))
    } else {
        None
    }
}

fn bytes8(b: &[u8], o: usize) -> (r: [u8; 8])
    requires
        o + 8 <= b@.len(),
    ensures
        r@ == b@.subrange(o as int, o + 8),
{
    let r = [b[o], b[o + 1], b[o + 2], b[o + 3], b[o + 4], b[o + 5], b[o + 6], b[o + 7]];
    assert(r@ =~= b@.subrange(o as int, o + 8));
    r
}

fn bytes6(b: &[u8], o: usize) -> (r: [u8; 6])
    requires
        o + 6 <= b@.len(),
    ensures
        r@ == b@.subrange(o as int, o + 6),
{
    let r = [b[o], b[o + 1], b[o + 2], b[o + 3], b[o + 4], b[o + 5]];
    assert(r@ =~= b@.subrange(o as int, o + 6));
    r
}

pub fn bytes4(b: &[u8], o: usize) -> (r: [u8; 4])
    requires
        o + 4 <= b@.len(),
    ensures
        r@ == b@.subrange(o as int, o + 4),
{
    let r = [b[o], b[o + 1], b[o + 2], b[o + 3]];
    assert(r@ =~= b@.subrange(o as int, o + 4));
    r
}

proof fn lemma_array_view_eq<const N: usize>(a: [u8; N], b: [u8; N])
    requires
        a@ == b@,
    ensures
        a == b,
{
    assert forall|i: int| 0 <= i < N implies a[i] == b[i] by {
        assert(a@[i] == b@[i]);
    }
    assert(a =~= b);
}

impl Rsdp {
    /// Reads the root pointer from the first 20 bytes of `bytes`: its signature must be
    /// `"RSD PTR "` and its bytes must add up to zero.
    pub fn new(bytes: &[u8]) -> (r: Result<Self, AcpiError>)
        requires
            RSDP_SIZE <= bytes@.len(),
        ensures
            match rsdp_check(bytes@) {
                None => (r matches Ok(p) && rsdp_at(p, bytes@, 0)),
                Some(e) => r == Err::<Self, AcpiError>(e),
            },
    {
        let signature = bytes8(bytes, 0);
        let mut same = true;
        let mut i: usize = 0;
        assert(signature@.subrange(0, 0) =~= root_signature().subrange(0, 0));
        while i < 8
            invariant
                i <= 8,
                signature@ == bytes@.subrange(0, 8),
                same == (signature@.subrange(0, i as int) == root_signature().subrange(0, i as int)),
            decreases 8 - i,
        {
            if signature[i] != ROOT_SIGNATURE[i] {
                same = false;
            }
            proof {
                assert(ROOT_SIGNATURE@ == root_signature());
                if same {
                    assert(signature@.subrange(0, i + 1) =~= root_signature().subrange(0, i + 1));
                } else if signature[i as int] != ROOT_SIGNATURE[i as int] {
                    assert(signature@.subrange(0, i + 1)[i as int] != root_signature().subrange(0, i + 1)[i as int]);
                } else {
                    assert(signature@.subrange(0, i as int) =~= signature@.subrange(0, i + 1).subrange(0, i as int));
                    assert(root_signature().subrange(0, i as int) =~= root_signature().subrange(0, i + 1).subrange(
                        0,
                        i as int,
                    ));
                }
            }
            i = i + 1;
        }
        assert(signature@.subrange(0, 8) =~= signature@);
        assert(root_signature().subrange(0, 8) =~= root_signature());
        if !same {
            proof {
                let f = choose|f: [u8; 8]| f@ == bytes@.subrange(0, 8);
                lemma_array_view_eq(f, signature);
            }
            return Err(AcpiError::InvalidRootSignature { found: signature });
        }
        let sum = sum_bytes(bytes, 0, RSDP_SIZE);
        if sum != 0 {
            return Err(AcpiError::InvalidChecksum(sum));
        }
        Ok(Rsdp {
            signature,
            checksum: bytes[8],
            oem_id: bytes6(bytes, 9),
            revision: bytes[15],
            rsdt_addr: read_u32(bytes, 16),
        })
    }
}

/// The root system description pointer of ACPI 2.0 and later.
#[derive(Clone, Copy)]
pub struct Xsdp {
    pub rsdp: Rsdp,
    pub len: u32,
    /// Physical address of the extended system description table, 64 bits on any machine.
    pub xsdt_addr: u64,
    pub ext_checksum: u8,
    pub reserved: [u8; 3],
}

/// Bytes of [`Xsdp`].
pub const XSDP_SIZE: usize = 36;

/// What reading an extended root pointer from `s` gives: an error, or the pointer is well
/// formed. Its first 20 bytes must read as a root pointer, and its last 16 bytes must add up
/// to zero.
pub open spec fn xsdp_check(s: Seq<u8>) -> Option<AcpiError> {
    match rsdp_check(s) {
        Some(e) => Some(e),
        None => if checksum(s.subrange(RSDP_SIZE as int, XSDP_SIZE as int)) != 0 {
            Some(AcpiError::InvalidChecksum(checksum(s.subrange(RSDP_SIZE as int, XSDP_SIZE as int)) as u8))
        } else {
            None
        },
    }
}

impl Xsdp {
    /// Reads the extended root pointer from the first 36 bytes of `bytes`.
    pub fn new(bytes: &[u8]) -> (r: Result<Self, AcpiError>)
        requires
            XSDP_SIZE <= bytes@.len(),
        ensures
            match xsdp_check(bytes@) {
                None => (r matches Ok(p) && {
                    &&& rsdp_at(p.rsdp, bytes@, 0)
                    &&& p.len == le32(bytes@, 20)
                    &&& p.xsdt_addr == le64(bytes@, 24)
                    &&& p.ext_checksum == bytes@[32]
                    &&& p.reserved@ == bytes@.subrange(33, 36)
                }),
                Some(e) => r == Err::<Self, AcpiError>(e),
            },
    {
        let rsdp = match Rsdp::new(bytes) {
            Ok(r) => r,
            Err(e) => return Err(e),
        };
        let sum = sum_bytes(bytes, RSDP_SIZE, XSDP_SIZE - RSDP_SIZE);
        if sum != 0 {
            return Err(AcpiError::InvalidChecksum(sum));
        }
        let reserved = [bytes[33], bytes[34], bytes[35]];
        assert(reserved@ =~= bytes@.subrange(33, 36));
        Ok(Xsdp { rsdp, len: read_u32(bytes, 20), xsdt_addr: read_u64(bytes, 24), ext_checksum: bytes[32], reserved })
    }
}

/// Bytes of the header of a system description table.
pub const SYSTEM_TABLE_HEADER_SIZE: usize = 36;

/// The header of a system description table.
#[derive(Clone, Copy)]
pub struct SystemTableHeader {
    pub signature: [u8; 4],
    pub length: u32,
    pub revision: u8,
    pub checksum: u8,
    pub oem_id: [u8; 6],
    pub oem_table_id: u64,
    pub oem_revision: u32,
    pub creator_id: u32,
    pub creator_revision: u32,
}

/// The bytes of `s` hold a whole system description table: a header whose length covers
/// itself and lies within `s`.
pub open spec fn table_fits(s: Seq<u8>) -> bool {
    &&& SYSTEM_TABLE_HEADER_SIZE <= s.len()
    &&& SYSTEM_TABLE_HEADER_SIZE <= le32(s, 4) <= s.len()
}

/// A checked system description table: its signature and the bytes after its header.
#[derive(Clone, Copy)]
pub struct SystemTable<'a> {
    pub signature: [u8; 4],
    pub entries: &'a [u8],
}

impl SystemTableHeader {
    /// Decodes the header from the first 36 bytes of `bytes`.
    pub fn decode(bytes: &[u8]) -> (r: Self)
        requires
            SYSTEM_TABLE_HEADER_SIZE <= bytes@.len(),
        ensures
            r.signature@ == bytes@.subrange(0, 4),
            r.length == le32(bytes@, 4),
            r.revision == bytes@[8],
            r.checksum == bytes@[9],
            r.oem_id@ == bytes@.subrange(10, 16),
            r.oem_table_id == le64(bytes@, 16),
            r.oem_revision == le32(bytes@, 24),
            r.creator_id == le32(bytes@, 28),
            r.creator_revision == le32(bytes@, 32),
    {
        SystemTableHeader {
            signature: bytes4(bytes, 0),
            length: read_u32(bytes, 4),
            revision: bytes[8],
            checksum: bytes[9],
            oem_id: bytes6(bytes, 10),
            oem_table_id: read_u64(bytes, 16),
            oem_revision: read_u32(bytes, 24),
            creator_id: read_u32(bytes, 28),
            creator_revision: read_u32(bytes, 32),
        }
    }
}

impl<'a> SystemTable<'a> {
    /// Reads the system description table at the start of `bytes`: all of its bytes, as its
    /// header counts them, must add up to zero.
    pub fn parse(bytes: &'a [u8]) -> (r: Result<Self, AcpiError>)
        requires
            table_fits(bytes@),
        ensures
            ({
                let len = le32(bytes@, 4);
                let sum = checksum(bytes@.subrange(0, len));
                if sum != 0 {
                    r == Err::<Self, AcpiError>(AcpiError::InvalidChecksum(sum as u8))
                } else {
                    r matches Ok(t) && t.signature@ == bytes@.subrange(0, 4) && t.entries@ == bytes@.subrange(
                        SYSTEM_TABLE_HEADER_SIZE as int,
                        len,
                    )
                }
            }),
    {
        let header = SystemTableHeader::decode(bytes);
        let len = header.length as usize;
        let sum = sum_bytes(bytes, 0, len);
        if sum != 0 {
            return Err(AcpiError::InvalidChecksum(sum));
        }
        let (table, _) = bytes.split_at(len);
        let (_, entries) = table.split_at(SYSTEM_TABLE_HEADER_SIZE);
        assert(entries@ =~= bytes@.subrange(SYSTEM_TABLE_HEADER_SIZE as int, len as int));
        Ok(SystemTable { signature: header.signature, entries })
    }

    /// The table as a table of type `T`, when its signature is `T`'s.
    pub fn typed<T: TypedSystemTable<'a>>(&self) -> (r: Result<T, AcpiError>)
        requires
            T::fits(*self),
        ensures
            self.signature@ == T::spec_signature() ==> (r matches Ok(t) && t.made_from(*self)),
            self.signature@ != T::spec_signature() ==> (r matches Err(AcpiError::InvalidTableSignature { expected, found })
                && expected@ == T::spec_signature() && found == self.signature),
    {
        let expected = T::signature();
        if self.signature[0] == expected[0] && self.signature[1] == expected[1] && self.signature[2] == expected[2]
            && self.signature[3] == expected[3] {
            assert(self.signature@ =~= expected@);
            Ok(T::from_table(self))
        } else {
            assert(self.signature@ != expected@) by {
                if self.signature@ == expected@ {
                    assert(self.signature@[0] == expected@[0]);
                    assert(self.signature@[1] == expected@[1]);
                    assert(self.signature@[2] == expected@[2]);
                    assert(self.signature@[3] == expected@[3]);
                }
            }
            Err(AcpiError::InvalidTableSignature { expected, found: self.signature })
        }
    }
}

/// A system description table of a known type, read from a checked table.
pub trait TypedSystemTable<'a>: Sized {
    /// The signature of tables of this type.
    spec fn spec_signature() -> Seq<u8>;

    /// The table can be read as this type.
    spec fn fits(table: SystemTable<'a>) -> bool;

    /// `self` is what reading `table` gives.
    spec fn made_from(&self, table: SystemTable<'a>) -> bool;

    /// The signature of tables of this type.
    fn signature() -> (r: [u8; 4])
        ensures
            r@ == Self::spec_signature(),
    ;

    /// Reads a table of this type.
    fn from_table(table: &SystemTable<'a>) -> (r: Self)
        requires
            table.signature@ == Self::spec_signature(),
            Self::fits(*table),
        ensures
            r.made_from(*table),
    ;
}

/// The root system description table: the 32-bit addresses of the other tables.
#[derive(Clone, Copy)]
pub struct Rsdt<'a> {
    pub entries: &'a [u8],
}

/// The extended system description table: the 64-bit addresses of the other tables.
#[derive(Clone, Copy)]
pub struct Xsdt<'a> {
    pub entries: &'a [u8],
}

impl<'a> TypedSystemTable<'a> for Rsdt<'a> {
    open spec fn spec_signature() -> Seq<u8> {
        seq![0x52u8, 0x53, 0x44, 0x54]
    }

    open spec fn fits(table: SystemTable<'a>) -> bool {
        true
    }

    open spec fn made_from(&self, table: SystemTable<'a>) -> bool {
        self.entries@ == table.entries@
    }

    fn signature() -> (r: [u8; 4]) {
        let r = [0x52u8, 0x53, 0x44, 0x54];
        assert(r@ =~= seq![0x52u8, 0x53, 0x44, 0x54]);
        r
    }

    fn from_table(table: &SystemTable<'a>) -> (r: Self) {
        Rsdt { entries: table.entries }
    }
}

impl<'a> TypedSystemTable<'a> for Xsdt<'a> {
    open spec fn spec_signature() -> Seq<u8> {
        seq![0x58u8, 0x53, 0x44, 0x54]
    }

    open spec fn fits(table: SystemTable<'a>) -> bool {
        true
    }

    open spec fn made_from(&self, table: SystemTable<'a>) -> bool {
        self.entries@ == table.entries@
    }

    fn signature() -> (r: [u8; 4]) {
        let r = [0x58u8, 0x53, 0x44, 0x54];
        assert(r@ =~= seq![0x58u8, 0x53, 0x44, 0x54]);
        r
    }

    fn from_table(table: &SystemTable<'a>) -> (r: Self) {
        Xsdt { entries: table.entries }
    }
}

impl<'a> Rsdt<'a> {
    /// The entries are whole 32-bit addresses.
    pub fn is_whole(&self) -> (r: bool)
        ensures
            r == (self.entries@.len() % 4 == 0),
    {
        self.entries.len() % 4 == 0
    }

    /// The addresses of the tables the root table points to, in order.
    pub fn addresses(&self) -> (r: Vec<u64>)
        requires
            self.entries@.len() % 4 == 0,
        ensures
            r@.len() == self.entries@.len() / 4,
            forall|i: int| 0 <= i < r@.len() ==> #[trigger] r@[i] == le32(self.entries@, 4 * i),
    {
        let mut out: Vec<u64> = Vec::new();
        let mut at: usize = 0;
        while at < self.entries.len()
            invariant
                self.entries@.len() % 4 == 0,
                at % 4 == 0,
                at <= self.entries@.len(),
                out@.len() == at / 4,
                forall|i: int| 0 <= i < out@.len() ==> #[trigger] out@[i] == le32(self.entries@, 4 * i),
            decreases self.entries@.len() - at,
        {
            out.push(read_u32(self.entries, at) as u64);
            at = at + 4;
        }
        out
    }
}

impl<'a> Xsdt<'a> {
    /// The entries are whole 64-bit addresses.
    pub fn is_whole(&self) -> (r: bool)
        ensures
            r == (self.entries@.len() % 8 == 0),
    {
        self.entries.len() % 8 == 0
    }

    /// The addresses of the tables the extended root table points to, in order.
    pub fn addresses(&self) -> (r: Vec<u64>)
        requires
            self.entries@.len() % 8 == 0,
        ensures
            r@.len() == self.entries@.len() / 8,
            forall|i: int| 0 <= i < r@.len() ==> #[trigger] r@[i] == le64(self.entries@, 8 * i),
    {
        let mut out: Vec<u64> = Vec::new();
        let mut at: usize = 0;
        while at < self.entries.len()
            invariant
                self.entries@.len() % 8 == 0,
                at % 8 == 0,
                at <= self.entries@.len(),
                out@.len() == at / 8,
                forall|i: int| 0 <= i < out@.len() ==> #[trigger] out@[i] == le64(self.entries@, 8 * i),
            decreases self.entries@.len() - at,
        {
            out.push(read_u64(self.entries, at));
            at = at + 8;
        }
        out
    }
}

impl Rsdp {
    /// The root system description table, read from `table`, the bytes at
    /// [`Rsdp::rsdt_addr`].
    pub fn rsdt<'a>(&self, table: &'a [u8]) -> (r: Result<Rsdt<'a>, AcpiError>)
        requires
            table_fits(table@),
        ensures
            ({
                let len = le32(table@, 4);
                let sum = checksum(table@.subrange(0, len));
                if sum != 0 {
                    r == Err::<Rsdt<'a>, AcpiError>(AcpiError::InvalidChecksum(sum as u8))
                } else if table@.subrange(0, 4) != Rsdt::spec_signature() {
                    r matches Err(AcpiError::InvalidTableSignature { expected, found }) && expected@ == Rsdt::spec_signature()
                        && found@ == table@.subrange(0, 4)
                } else {
                    r matches Ok(t) && t.entries@ == table@.subrange(SYSTEM_TABLE_HEADER_SIZE as int, len)
                }
            }),
    {
        match SystemTable::parse(table) {
            Ok(t) => t.typed(),
            Err(e) => Err(e),
        }
    }
}

impl Xsdp {
    /// The extended system description table, read from `table`, the bytes at
    /// [`Xsdp::xsdt_addr`].
    pub fn xsdt<'a>(&self, table: &'a [u8]) -> (r: Result<Xsdt<'a>, AcpiError>)
        requires
            table_fits(table@),
        ensures
            ({
                let len = le32(table@, 4);
                let sum = checksum(table@.subrange(0, len));
                if sum != 0 {
                    r == Err::<Xsdt<'a>, AcpiError>(AcpiError::InvalidChecksum(sum as u8))
                } else if table@.subrange(0, 4) != Xsdt::spec_signature() {
                    r matches Err(AcpiError::InvalidTableSignature { expected, found }) && expected@ == Xsdt::spec_signature()
                        && found@ == table@.subrange(0, 4)
                } else {
                    r matches Ok(t) && t.entries@ == table@.subrange(SYSTEM_TABLE_HEADER_SIZE as int, len)
                }
            }),
    {
        match SystemTable::parse(table) {
            Ok(t) => t.typed(),
            Err(e) => Err(e),
        }
    }
}

} // verus!
