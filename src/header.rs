//! Classification of a pack entry from the bytes of its header.
use vstd::prelude::*;

verus! {

/// The length of an object identifier that names the base of a reference delta.
pub const OID_LEN: usize = 20;

/// A pack entry header as a mathematical value.
pub enum HeaderView {
    Tree,
    Blob,
    Commit,
    Tag,
    RefDelta { oid: Seq<u8> },
    OfsDelta { pack_offset: int },
}

/// The kind of a pack entry, as its header states it.
pub enum Header {
    /// A self-contained tree.
    Tree,
    /// A self-contained blob.
    Blob,
    /// A self-contained commit.
    Commit,
    /// A self-contained tag.
    Tag,
    /// A delta whose base is named by its object identifier.
    RefDelta { oid: Vec<u8> },
    /// A delta whose base starts at `pack_offset`, earlier in the same pack.
    OfsDelta { pack_offset: u64 },
}

impl View for Header {
    type V = HeaderView;

    open spec fn view(&self) -> HeaderView {
        match self {
            Header::Tree => HeaderView::Tree,
            Header::Blob => HeaderView::Blob,
            Header::Commit => HeaderView::Commit,
            Header::Tag => HeaderView::Tag,
            Header::RefDelta { oid } => HeaderView::RefDelta { oid: oid@ },
            Header::OfsDelta { pack_offset } => HeaderView::OfsDelta {
                pack_offset: *pack_offset as int,
            },
        }
    }
}

/// Why the bytes at an offset do not hold a valid entry header.
#[derive(Debug, Clone, Copy, PartialEq, Eq, Structural)]
pub enum HeaderError {
    /// The bytes end before the header does.
    UnexpectedEof,
    /// The kind field names no known entry kind.
    UnknownKind { kind: u8 },
    /// The decompressed size does not fit in 64 bits.
    SizeOverflow,
    /// An offset delta's distance is zero or reaches before the start of the pack.
    InvalidBaseOffset,
}

/// Index of the first byte at or after `i` whose continuation bit is clear.
pub open spec fn varint_end(s: Seq<u8>, i: int) -> Option<int>
    decreases s.len() - i,
{
    if i < 0 || i >= s.len() {
        None
    } else if s[i] < 128 {
        Some(i)
    } else {
        varint_end(s, i + 1)
    }
}

/// Little-endian base-128 value of the low seven bits of `s[i..=e]`.
pub open spec fn le7(s: Seq<u8>, i: int, e: int) -> int
    decreases e - i,
{
    if i >= e {
        (s[e] % 128) as int
    } else {
        (s[i] % 128) as int + 128 * le7(s, i + 1, e)
    }
}

/// Value of the distance encoding of offset deltas over `s[p..=k]`: big-endian
/// base-128, where each byte after the first also adds one to what precedes it.
pub open spec fn ofs_val(s: Seq<u8>, p: int, k: int) -> int
    decreases k - p,
{
    if k <= p {
        (s[p] % 128) as int
    } else {
        (ofs_val(s, p, k - 1) + 1) * 128 + (s[k] % 128) as int
    }
}

/// The entry kind code: bits 4 to 6 of the first byte.
pub open spec fn kind_code(s: Seq<u8>) -> int {
    ((s[0] / 16) % 8) as int
}

/// Index of the last byte of the size field.
pub open spec fn size_end(s: Seq<u8>) -> Option<int> {
    if s[0] < 128 {
        Some(0)
    } else {
        varint_end(s, 1)
    }
}

/// The decompressed size: four bits of the first byte, then seven per byte.
pub open spec fn decompressed_size(s: Seq<u8>, e: int) -> int {
    if e == 0 {
        (s[0] % 16) as int
    } else {
        (s[0] % 16) as int + 16 * le7(s, 1, e)
    }
}

/// The header at the start of `s` for an entry at `pack_offset`: its kind,
/// its decompressed size and its length in bytes.
pub open spec fn parse_header(s: Seq<u8>, pack_offset: int) -> Result<
    (HeaderView, int, int),
    HeaderError,
> {
    if s.len() == 0 {
        Err(HeaderError::UnexpectedEof)
    } else {
        match size_end(s) {
            None => Err(HeaderError::UnexpectedEof),
            Some(e) => {
                let size = decompressed_size(s, e);
                let kind = kind_code(s);
                if size > u64::MAX {
                    Err(HeaderError::SizeOverflow)
                } else if kind == 1 {
                    Ok((HeaderView::Commit, size, e + 1))
                } else if kind == 2 {
                    Ok((HeaderView::Tree, size, e + 1))
                } else if kind == 3 {
                    Ok((HeaderView::Blob, size, e + 1))
                } else if kind == 4 {
                    Ok((HeaderView::Tag, size, e + 1))
                } else if kind == 6 {
                    match varint_end(s, e + 1) {
                        None => Err(HeaderError::UnexpectedEof),
                        Some(f) => {
                            let ofs = ofs_val(s, e + 1, f);
                            if ofs == 0 || ofs > pack_offset {
                                Err(HeaderError::InvalidBaseOffset)
                            } else {
                                Ok((HeaderView::OfsDelta { pack_offset: pack_offset - ofs }, size, f + 1))
                            }
                        },
                    }
                } else if kind == 7 {
                    if e + 1 + OID_LEN > s.len() {
                        Err(HeaderError::UnexpectedEof)
                    } else {
                        Ok((HeaderView::RefDelta { oid: s.subrange(e + 1, e + 1 + OID_LEN) }, size, e + 1 + OID_LEN))
                    }
                } else {
                    Err(HeaderError::UnknownKind { kind: kind as u8 })
                }
            },
        }
    }
}

/// Lemma: taking in more low-order bytes never makes a size smaller.
proof fn lemma_le7_grows(s: Seq<u8>, i: int, j: int, e: int)
    requires
        0 <= i <= j <= e < s.len(),
    ensures
        le7(s, i, e) >= le7(s, j, e) >= 0,
    decreases j - i,
{
    if i < j {
        lemma_le7_grows(s, i + 1, j, e);
    } else {
        lemma_le7_nonneg(s, j, e);
    }
}

/// Lemma: a size is never negative.
proof fn lemma_le7_nonneg(s: Seq<u8>, i: int, e: int)
    requires
        0 <= i <= e < s.len(),
    ensures
        le7(s, i, e) >= 0,
    decreases e - i,
{
    if i < e {
        lemma_le7_nonneg(s, i + 1, e);
    }
}

/// Lemma: taking in more bytes never makes a distance smaller.
proof fn lemma_ofs_grows(s: Seq<u8>, p: int, k: int, f: int)
    requires
        0 <= p <= k <= f < s.len(),
    ensures
        ofs_val(s, p, f) >= ofs_val(s, p, k) >= 0,
    decreases f - k,
{
    if k < f {
        lemma_ofs_grows(s, p, k, f - 1);
    } else {
        lemma_ofs_nonneg(s, p, k);
    }
}

/// Lemma: a distance is never negative.
proof fn lemma_ofs_nonneg(s: Seq<u8>, p: int, k: int)
    requires
        0 <= p <= k < s.len(),
    ensures
        ofs_val(s, p, k) >= 0,
    decreases k - p,
{
    if p < k {
        lemma_ofs_nonneg(s, p, k - 1);
    }
}

/// Index of the first byte at or after `i` whose continuation bit is clear.
fn find_varint_end(data: &[u8], i: usize) -> (r: Option<usize>)
    ensures
        match r {
            Some(e) => varint_end(data@, i as int) == Some(e as int) && i <= e < data@.len(),
            None => varint_end(data@, i as int) is None,
        },
{
    let mut j: usize = i;
    while j < data.len()
        invariant
            i <= j,
            varint_end(data@, i as int) == varint_end(data@, j as int),
        decreases data.len() - j,
    {
        if data[j] < 128 {
            return Some(j);
        }
        j = j + 1;
    }
    None
}

impl Header {
    /// Reads the header at the start of `data`, which holds the bytes of the pack
    /// from `pack_offset` on. Returns the entry's kind, its decompressed size and
    /// the number of bytes that the header occupies.
    pub fn from_bytes(data: &[u8], pack_offset: u64) -> (r: Result<(Header, u64, usize), HeaderError>)
        ensures
            match r {
                Ok((h, size, len)) => parse_header(data@, pack_offset as int) == Ok::<
                    (HeaderView, int, int),
                    HeaderError,
                >((h@, size as int, len as int)),
                Err(err) => parse_header(data@, pack_offset as int) == Err::<
                    (HeaderView, int, int),
                    HeaderError,
                >(err),
            },
    {
        let ghost s = data@;
        if data.len() == 0 {
            return Err(HeaderError::UnexpectedEof);
        }
        let b0 = data[0];
        let e: usize = if b0 < 128 {
            0
        } else {
            match find_varint_end(data, 1) {
                Some(e) => e,
                None => {
                    return Err(HeaderError::UnexpectedEof);
                },
            }
        };
        assert(size_end(s) == Some(e as int));
        // the size, accumulated from its last byte down to its second
        let mut v: u128 = 0;
        if e > 0 {
            let mut j: usize = e;
            v = (data[e] % 128) as u128;
            while j > 1
                invariant
                    1 <= j <= e < data.len(),
                    s == data@,
                    v == le7(s, j as int, e as int),
                    v <= u64::MAX,
                    b0 == s[0],
                    size_end(s) == Some(e as int),
                decreases j,
            {
                j = j - 1;
                let nv: u128 = (data[j] % 128) as u128 + 128 * v;
                if nv > u64::MAX as u128 {
                    proof {
                        lemma_le7_grows(s, 1, j as int, e as int);
                    }
                    return Err(HeaderError::SizeOverflow);
                }
                v = nv;
            }
        }
        let size: u128 = (b0 % 16) as u128 + 16 * v;
        assert(size == decompressed_size(s, e as int));
        if size > u64::MAX as u128 {
            return Err(HeaderError::SizeOverflow);
        }
        let size = size as u64;
        let kind: u8 = (b0 / 16) % 8;
        if kind == 1 {
            Ok((Header::Commit, size, e + 1))
        } else if kind == 2 {
            Ok((Header::Tree, size, e + 1))
        } else if kind == 3 {
            Ok((Header::Blob, size, e + 1))
        } else if kind == 4 {
            Ok((Header::Tag, size, e + 1))
        } else if kind == 6 {
            let p = e + 1;
            let f = match find_varint_end(data, p) {
                Some(f) => f,
                None => {
                    return Err(HeaderError::UnexpectedEof);
                },
            };
            let mut k: usize = p;
            let mut ofs: u128 = (data[p] % 128) as u128;
            if ofs > pack_offset as u128 {
                proof {
                    lemma_ofs_grows(s, p as int, k as int, f as int);
                }
                return Err(HeaderError::InvalidBaseOffset);
            }
            while k < f
                invariant
                    p <= k <= f < data.len(),
                    s == data@,
                    ofs == ofs_val(s, p as int, k as int),
                    ofs <= pack_offset,
                    kind == kind_code(s),
                    kind == 6,
                    size == decompressed_size(s, e as int),
                    size_end(s) == Some(e as int),
                    varint_end(s, p as int) == Some(f as int),
                    p == e + 1,
                decreases f - k,
            {
                k = k + 1;
                ofs = (ofs + 1) * 128 + (data[k] % 128) as u128;
                if ofs > pack_offset as u128 {
                    proof {
                        lemma_ofs_grows(s, p as int, k as int, f as int);
                    }
                    return Err(HeaderError::InvalidBaseOffset);
                }
            }
            if ofs == 0 {
                return Err(HeaderError::InvalidBaseOffset);
            }
            Ok((Header::OfsDelta { pack_offset: pack_offset - ofs as u64 }, size, f + 1))
        } else if kind == 7 {
            if data.len() - (e + 1) < OID_LEN {
                return Err(HeaderError::UnexpectedEof);
            }
            let mut oid: Vec<u8> = Vec::with_capacity(OID_LEN);
            let mut k: usize = e + 1;
            while k < e + 1 + OID_LEN
                invariant
                    e + 1 <= k <= e + 1 + OID_LEN <= data.len(),
                    oid@ == s.subrange(e + 1, k as int),
                    s == data@,
                decreases e + 1 + OID_LEN - k,
            {
                oid.push(data[k]);
                k = k + 1;
                assert(oid@ =~= s.subrange(e + 1, k as int));
            }
            Ok((Header::RefDelta { oid }, size, e + 1 + OID_LEN))
        } else {
            Err(HeaderError::UnknownKind { kind })
        }
    }
}

} // verus!
