//! UStar headers and the tar sink.
//!
//! A header is one 512-byte block of fixed-offset fields. Numeric fields hold
//! zero-padded octal text; text fields are cut to their width and zero-filled.
//! The checksum is the byte sum of the block with its own field read as eight
//! spaces, stored as six octal digits and a NUL.
use vstd::prelude::*;
use vstd::utf8::valid_utf8;
use crate::backup::{
    utf8_text, BackupOutputStream, EntryError, EntryKind, OutputAction, ReferenceEntry,
    SourceEntry,
};
use crate::path::{as_relative, relative};

verus! {

pub open spec fn zeros(n: nat) -> Seq<u8> {
    Seq::new(n, |_i: int| 0u8)
}

pub open spec fn spaces(n: nat) -> Seq<u8> {
    Seq::new(n, |_i: int| 0x20u8)
}

/// `src` cut to `width` bytes, or zero-filled up to it.
pub open spec fn field(src: Seq<u8>, width: nat) -> Seq<u8> {
    if src.len() >= width {
        src.subrange(0, width as int)
    } else {
        src + zeros((width - src.len()) as nat)
    }
}

pub open spec fn octal_digit(d: nat) -> u8 {
    (0x30 + d) as u8
}

/// `v` in octal, with leading zeros up to `width` digits.
pub open spec fn octal(v: nat, width: nat) -> Seq<u8>
    decreases v + width,
{
    if width <= 1 && v < 8 {
        seq![octal_digit(v)]
    } else {
        octal(v / 8, if width > 0 { (width - 1) as nat } else { 0 }).push(octal_digit(v % 8))
    }
}

/// The number that octal text `s` spells.
pub open spec fn octal_value(s: Seq<u8>) -> nat
    decreases s.len(),
{
    if s.len() == 0 {
        0
    } else {
        octal_value(s.drop_last()) * 8 + (s.last() - 0x30) as nat
    }
}

pub open spec fn byte_sum(s: Seq<u8>) -> nat
    decreases s.len(),
{
    if s.len() == 0 {
        0
    } else {
        byte_sum(s.drop_last()) + s.last() as nat
    }
}

pub open spec fn type_flag(k: EntryKind) -> u8 {
    match k {
        EntryKind::File => 0x30u8,
        EntryKind::Symlink => 0x32u8,
        EntryKind::CharDevice => 0x33u8,
        EntryKind::BlockDevice => 0x34u8,
        EntryKind::Directory => 0x35u8,
        EntryKind::Fifo => 0x36u8,
        EntryKind::Other => 0u8,
    }
}

/// The leading part of a path that does not fit the name field.
pub open spec fn name_prefix(path: Seq<u8>) -> Seq<u8> {
    if path.len() <= 100 {
        Seq::empty()
    } else {
        path.subrange(0, path.len() - 100)
    }
}

/// The trailing part of a path that goes in the name field.
pub open spec fn name_tail(path: Seq<u8>) -> Seq<u8> {
    if path.len() <= 100 {
        path
    } else {
        path.subrange(path.len() - 100, path.len() as int)
    }
}

/// A directory's name ends with a separator.
pub open spec fn entry_name(name: Seq<u8>, is_dir: bool) -> Seq<u8> {
    if is_dir && !(name.len() > 0 && name.last() == 0x2fu8) {
        name.push(0x2fu8)
    } else {
        name
    }
}

/// Bytes of content that follow the header: a regular file's length, else none.
pub open spec fn payload_size(e: SourceEntry) -> u64 {
    if e.kind == EntryKind::File {
        e.size
    } else {
        0
    }
}

/// The link target of a symlink; other kinds have none.
pub open spec fn link_name(e: SourceEntry) -> Seq<u8> {
    match e.link_target {
        Some(t) => if e.kind == EntryKind::Symlink {
            t@
        } else {
            Seq::empty()
        },
        None => Seq::empty(),
    }
}

pub open spec fn magic() -> Seq<u8> {
    seq![0x75u8, 0x73u8, 0x74u8, 0x61u8, 0x72u8, 0x20u8, 0x20u8, 0u8]
}

/// The header block of `e` with the checksum field still eight spaces.
/// `secs` is the modification time and `owner`, `group` the resolved names.
/// A directory's path gets its closing `/` before it is split between the
/// name and prefix fields.
#[verifier::opaque]
pub open spec fn unsigned_block(e: SourceEntry, secs: nat, owner: Seq<u8>, group: Seq<u8>) -> Seq<
    u8,
> {
    let path = entry_name(relative(e.path@), e.kind == EntryKind::Directory);
    field(name_tail(path), 100) + field(
        octal((e.mode & 0o7777u32) as nat, 7),
        8,
    ) + field(octal(e.uid as nat, 7), 8) + field(octal(e.gid as nat, 7), 8) + field(
        octal(payload_size(e) as nat, 11),
        12,
    ) + field(octal(secs, 11), 12) + spaces(8) + seq![type_flag(e.kind)] + field(link_name(e), 100)
        + magic() + field(owner, 32) + field(group, 32) + zeros(16) + field(
        name_prefix(path),
        155,
    ) + zeros(12)
}

/// `pre` with its checksum field filled in.
#[verifier::opaque]
pub open spec fn signed_block(pre: Seq<u8>) -> Seq<u8> {
    pre.subrange(0, 148) + octal(byte_sum(pre), 6) + seq![0u8, 0x20u8] + pre.subrange(156, 512)
}

/// The header of `e`, or why it has none.
pub open spec fn header_of(e: SourceEntry) -> Result<Seq<u8>, EntryError> {
    if !valid_utf8(relative(e.path@)) {
        Err(EntryError::PathNotUtf8)
    } else if e.mtime.is_none() {
        Err(EntryError::MtimeUnavailable)
    } else if e.mtime->0.secs < 0 {
        Err(EntryError::MtimeBeforeEpoch)
    } else if e.kind == EntryKind::Other {
        Err(EntryError::UnsupportedKind)
    } else if e.owner.is_none() {
        Err(EntryError::UnknownOwner)
    } else if !valid_utf8(e.owner->0@) {
        Err(EntryError::OwnerNotUtf8)
    } else if e.group.is_none() {
        Err(EntryError::UnknownGroup)
    } else if !valid_utf8(e.group->0@) {
        Err(EntryError::GroupNotUtf8)
    } else {
        Ok(
            signed_block(
                unsigned_block(e, e.mtime->0.secs as nat, e.owner->0@, e.group->0@),
            ),
        )
    }
}

/// Zero bytes that bring a payload of `size` bytes to a whole number of blocks.
pub open spec fn padding_of(size: nat) -> nat {
    ((512 - size % 512) as nat) % 512
}

/// One archive record: a header, the payload, and the zero padding after it.
pub open spec fn record_bytes(header: Seq<u8>, data: Seq<u8>) -> Seq<u8> {
    header + data + zeros(padding_of(data.len()))
}

/// Records `(header, payload)` one after another.
pub open spec fn records_bytes(rs: Seq<(Seq<u8>, Seq<u8>)>) -> Seq<u8>
    decreases rs.len(),
{
    if rs.len() == 0 {
        Seq::empty()
    } else {
        records_bytes(rs.drop_last()) + record_bytes(rs.last().0, rs.last().1)
    }
}

/// A whole archive: its records, then the two zero blocks that end it.
pub open spec fn archive_bytes(rs: Seq<(Seq<u8>, Seq<u8>)>) -> Seq<u8> {
    records_bytes(rs) + zeros(1024)
}

proof fn lemma_records_aligned(rs: Seq<(Seq<u8>, Seq<u8>)>)
    requires
        forall|i: int| 0 <= i < rs.len() ==> (#[trigger] rs[i]).0.len() == 512,
    ensures
        records_bytes(rs).len() % 512 == 0,
    decreases rs.len(),
{
    if rs.len() > 0 {
        let init = rs.drop_last();
        assert forall|i: int| 0 <= i < init.len() implies (#[trigger] init[i]).0.len() == 512 by {
            assert(init[i] == rs[i]);
        }
        lemma_records_aligned(init);
        let d = rs.last().1.len();
        assert(rs[rs.len() - 1].0.len() == 512);
        let p = padding_of(d);
        let a = records_bytes(init).len();
        assert((a + 512 + d + p) % 512 == 0) by (nonlinear_arith)
            requires
                a % 512 == 0,
                p == ((512 - d % 512) as nat) % 512,
        ;
    }
}

/// An archive is a whole number of 512-byte blocks and ends with two zero
/// blocks, whatever records it holds.
pub proof fn lemma_archive_shape(rs: Seq<(Seq<u8>, Seq<u8>)>)
    requires
        forall|i: int| 0 <= i < rs.len() ==> (#[trigger] rs[i]).0.len() == 512,
    ensures
        archive_bytes(rs).len() % 512 == 0,
        archive_bytes(rs).len() >= 1024,
        archive_bytes(rs).subrange(archive_bytes(rs).len() - 1024, archive_bytes(rs).len() as int)
            == zeros(1024),
{
    lemma_records_aligned(rs);
    let a = archive_bytes(rs);
    assert(a.subrange(a.len() - 1024, a.len() as int) =~= zeros(1024));
}

proof fn lemma_records_concat(a: Seq<(Seq<u8>, Seq<u8>)>, b: Seq<(Seq<u8>, Seq<u8>)>)
    ensures
        records_bytes(a + b) == records_bytes(a) + records_bytes(b),
    decreases b.len(),
{
    if b.len() == 0 {
        assert(a + b =~= a);
        assert(records_bytes(a) + records_bytes(b) =~= records_bytes(a));
    } else {
        lemma_records_concat(a, b.drop_last());
        assert((a + b).drop_last() =~= a + b.drop_last());
        assert((a + b).last() == b.last());
        assert(records_bytes(a + b) =~= records_bytes(a) + records_bytes(b));
    }
}

/// Where the `k`-th record's header starts in an archive.
pub open spec fn header_offset(rs: Seq<(Seq<u8>, Seq<u8>)>, k: int) -> int {
    records_bytes(rs.subrange(0, k)).len() as int
}

/// Each record's header stands whole at its offset in the archive, so an
/// archive of non-blank headers has no blank header block.
pub proof fn lemma_headers_in_archive(rs: Seq<(Seq<u8>, Seq<u8>)>, k: int)
    requires
        0 <= k < rs.len(),
        forall|i: int| 0 <= i < rs.len() ==> (#[trigger] rs[i]).0.len() == 512,
    ensures
        header_offset(rs, k) % 512 == 0,
        archive_bytes(rs).subrange(header_offset(rs, k), header_offset(rs, k) + 512) == rs[k].0,
        rs[k].0 != zeros(512) ==> archive_bytes(rs).subrange(
            header_offset(rs, k),
            header_offset(rs, k) + 512,
        ) != zeros(512),
{
    let pre = rs.subrange(0, k);
    let post = rs.subrange(k + 1, rs.len() as int);
    assert(rs =~= pre + (seq![rs[k]] + post));
    lemma_records_concat(pre, seq![rs[k]] + post);
    lemma_records_concat(seq![rs[k]], post);
    let one = seq![rs[k]];
    assert(one.drop_last() =~= Seq::<(Seq<u8>, Seq<u8>)>::empty());
    assert(one.last() == rs[k]);
    assert(records_bytes(one.drop_last()) == Seq::<u8>::empty());
    assert(records_bytes(one) == records_bytes(one.drop_last()) + record_bytes(one.last().0, one.last().1));
    assert(records_bytes(one) =~= record_bytes(rs[k].0, rs[k].1));
    assert forall|i: int| 0 <= i < pre.len() implies (#[trigger] pre[i]).0.len() == 512 by {
        assert(pre[i] == rs[i]);
    }
    lemma_records_aligned(pre);
    let off = header_offset(rs, k);
    let a = archive_bytes(rs);
    assert(a =~= records_bytes(pre) + (record_bytes(rs[k].0, rs[k].1) + records_bytes(post)) + zeros(1024));
    assert(a.subrange(off, off + 512) =~= rs[k].0);
}

/// A payload that fills its last block exactly gets no padding.
pub proof fn lemma_no_padding_on_whole_blocks(size: nat)
    requires
        size % 512 == 0,
    ensures
        padding_of(size) == 0,
{
}

pub open spec fn pow8(n: nat) -> nat
    decreases n,
{
    if n == 0 {
        1
    } else {
        8 * pow8((n - 1) as nat)
    }
}

proof fn lemma_pow8_six()
    ensures
        pow8(6) == 262144,
{
    assert(pow8(0) == 1);
    assert(pow8(1) == 8);
    assert(pow8(2) == 64);
    assert(pow8(3) == 512);
    assert(pow8(4) == 4096);
    assert(pow8(5) == 32768);
}

proof fn lemma_octal_len(v: nat, width: nat)
    requires
        width >= 1,
        v < pow8(width),
    ensures
        octal(v, width).len() == width,
    decreases width,
{
    if width > 1 {
        assert(v / 8 < pow8((width - 1) as nat)) by {
            assert(pow8(width) == 8 * pow8((width - 1) as nat));
        }
        lemma_octal_len(v / 8, (width - 1) as nat);
    } else {
        assert(pow8(1) == 8 * pow8(0));
    }
}

proof fn lemma_octal_value(v: nat, width: nat)
    ensures
        octal_value(octal(v, width)) == v,
    decreases v + width,
{
    if width <= 1 && v < 8 {
        let s = seq![octal_digit(v)];
        assert(octal(v, width) == s);
        assert(s.drop_last() =~= Seq::<u8>::empty());
        assert(octal_value(Seq::<u8>::empty()) == 0);
        assert(s.last() == (0x30 + v) as u8);
    } else {
        let w = if width > 0 { (width - 1) as nat } else { 0 };
        lemma_octal_value(v / 8, w);
        let s = octal(v / 8, w).push(octal_digit(v % 8));
        assert(octal(v, width) == s);
        assert(s.drop_last() =~= octal(v / 8, w));
        assert(s.last() == (0x30 + v % 8) as u8);
        assert((v / 8) * 8 + v % 8 == v) by (nonlinear_arith);
    }
}

proof fn lemma_byte_sum_bound(s: Seq<u8>)
    ensures
        byte_sum(s) <= 255 * s.len(),
    decreases s.len(),
{
    if s.len() > 0 {
        lemma_byte_sum_bound(s.drop_last());
    }
}

proof fn lemma_unsigned_block_layout(e: SourceEntry, secs: nat, owner: Seq<u8>, group: Seq<u8>)
    ensures
        unsigned_block(e, secs, owner, group).len() == 512,
        unsigned_block(e, secs, owner, group).subrange(148, 156) == spaces(8),
        unsigned_block(e, secs, owner, group).subrange(257, 265) == magic(),
        unsigned_block(e, secs, owner, group)[156] == type_flag(e.kind),
{
    reveal(unsigned_block);
    let b = unsigned_block(e, secs, owner, group);
    let path = entry_name(relative(e.path@), e.kind == EntryKind::Directory);
    let upto148 = field(name_tail(path), 100) + field(
        octal((e.mode & 0o7777u32) as nat, 7),
        8,
    ) + field(octal(e.uid as nat, 7), 8) + field(octal(e.gid as nat, 7), 8) + field(
        octal(payload_size(e) as nat, 11),
        12,
    ) + field(octal(secs, 11), 12);
    assert(upto148.len() == 148);
    let upto156 = upto148 + spaces(8);
    assert(upto156.subrange(148, 156) =~= spaces(8));
    let upto257 = upto156 + seq![type_flag(e.kind)] + field(link_name(e), 100);
    assert(upto257.len() == 257);
    let upto265 = upto257 + magic();
    assert(upto265.subrange(257, 265) =~= magic());
    assert(upto265.subrange(148, 156) =~= spaces(8));
    let rest = field(owner, 32) + field(group, 32) + zeros(16) + field(name_prefix(path), 155)
        + zeros(12);
    assert(b =~= upto265 + rest);
    assert(b.subrange(148, 156) =~= upto265.subrange(148, 156));
    assert(b.subrange(257, 265) =~= upto265.subrange(257, 265));
    assert(b[156] == upto265[156]);
}

/// The checksum field of a header spells the byte sum of the header read with
/// that field as eight spaces.
pub proof fn lemma_header_checksum(e: SourceEntry)
    requires
        header_of(e) is Ok,
    ensures
        header_of(e)->Ok_0.len() == 512,
        octal_value(header_of(e)->Ok_0.subrange(148, 154)) == byte_sum(
            header_of(e)->Ok_0.subrange(0, 148) + spaces(8) + header_of(e)->Ok_0.subrange(156, 512),
        ),
{
    let pre = unsigned_block(e, e.mtime->0.secs as nat, e.owner->0@, e.group->0@);
    lemma_unsigned_block_layout(e, e.mtime->0.secs as nat, e.owner->0@, e.group->0@);
    let sum = byte_sum(pre);
    lemma_byte_sum_bound(pre);
    lemma_pow8_six();
    lemma_octal_len(sum, 6);
    lemma_octal_value(sum, 6);
    reveal(signed_block);
    let b = signed_block(pre);
    assert(b.len() == 512);
    assert(b.subrange(148, 154) =~= octal(sum, 6));
    assert(b.subrange(0, 148) + spaces(8) + b.subrange(156, 512) =~= pre) by {
        assert(b.subrange(0, 148) =~= pre.subrange(0, 148));
        assert(b.subrange(156, 512) =~= pre.subrange(156, 512));
        assert(pre =~= pre.subrange(0, 148) + pre.subrange(148, 156) + pre.subrange(156, 512));
    }
}

/// A header block is never all zero: it carries the format's magic.
pub proof fn lemma_header_not_blank(e: SourceEntry)
    requires
        header_of(e) is Ok,
    ensures
        header_of(e)->Ok_0.len() == 512,
        header_of(e)->Ok_0 != zeros(512),
{
    let pre = unsigned_block(e, e.mtime->0.secs as nat, e.owner->0@, e.group->0@);
    lemma_unsigned_block_layout(e, e.mtime->0.secs as nat, e.owner->0@, e.group->0@);
    lemma_byte_sum_bound(pre);
    lemma_pow8_six();
    lemma_octal_len(byte_sum(pre), 6);
    reveal(signed_block);
    let b = signed_block(pre);
    assert(b[257] == pre.subrange(257, 265)[0]);
    assert(b[257] == 0x75u8);
    assert(zeros(512)[257] == 0u8);
}

/// A header carries the magic `ustar ` and the type flag of a storable kind,
/// so it never reads as an end-of-archive block.
pub proof fn lemma_header_magic_and_type(e: SourceEntry)
    requires
        header_of(e) is Ok,
    ensures
        header_of(e)->Ok_0.subrange(257, 263) == seq![0x75u8, 0x73u8, 0x74u8, 0x61u8, 0x72u8, 0x20u8],
        header_of(e)->Ok_0[156] == type_flag(e.kind),
        header_of(e)->Ok_0[156] == 0x30u8 || (0x32u8 <= header_of(e)->Ok_0[156] <= 0x36u8),
{
    let pre = unsigned_block(e, e.mtime->0.secs as nat, e.owner->0@, e.group->0@);
    lemma_unsigned_block_layout(e, e.mtime->0.secs as nat, e.owner->0@, e.group->0@);
    lemma_byte_sum_bound(pre);
    lemma_pow8_six();
    lemma_octal_len(byte_sum(pre), 6);
    reveal(signed_block);
    let b = signed_block(pre);
    assert(b.subrange(257, 263) =~= pre.subrange(257, 265).subrange(0, 6));
    assert(b.subrange(257, 263) =~= seq![0x75u8, 0x73u8, 0x74u8, 0x61u8, 0x72u8, 0x20u8]);
    assert(b[156] == pre[156]);
}

/// `src` cut or zero-filled to `width` bytes, appended to `out`.
fn push_field(out: &mut Vec<u8>, src: &[u8], width: usize)
    requires
        old(out)@.len() + width <= usize::MAX,
    ensures
        final(out)@ == old(out)@ + field(src@, width as nat),
{
    let ghost base = out@;
    let n = if src.len() < width {
        src.len()
    } else {
        width
    };
    let mut i: usize = 0;
    while i < n
        invariant
            i <= n <= width,
            n <= src@.len(),
            out@ == base + src@.subrange(0, i as int),
        decreases n - i,
    {
        out.push(src[i]);
        proof {
            assert(src@.subrange(0, i + 1) =~= src@.subrange(0, i as int).push(src@[i as int]));
        }
        i = i + 1;
    }
    let mut j: usize = n;
    while j < width
        invariant
            n <= j <= width,
            n <= src@.len(),
            out@ == base + src@.subrange(0, n as int) + zeros((j - n) as nat),
        decreases width - j,
    {
        out.push(0u8);
        proof {
            assert(zeros((j + 1 - n) as nat) =~= zeros((j - n) as nat).push(0u8));
        }
        j = j + 1;
    }
    proof {
        if src@.len() >= width {
            assert(zeros(0) =~= Seq::<u8>::empty());
            assert(out@ =~= base + field(src@, width as nat));
        } else {
            assert(src@.subrange(0, n as int) =~= src@);
        }
    }
}

/// `v` in octal with leading zeros up to `width` digits.
fn octal_digits(v: u64, width: usize) -> (r: Vec<u8>)
    ensures
        r@ == octal(v as nat, width as nat),
    decreases v + width,
{
    if width <= 1 && v < 8 {
        let mut r: Vec<u8> = Vec::new();
        r.push(0x30u8 + v as u8);
        r
    } else {
        let w: usize = if width > 0 {
            width - 1
        } else {
            0
        };
        let mut r = octal_digits(v / 8, w);
        r.push(0x30u8 + (v % 8) as u8);
        r
    }
}

/// Sum of the bytes of `b`.
fn sum_bytes(b: &Vec<u8>) -> (r: u32)
    requires
        b@.len() <= 512,
    ensures
        r as nat == byte_sum(b@),
{
    let mut total: u32 = 0;
    let mut i: usize = 0;
    while i < b.len()
        invariant
            i <= b@.len() <= 512,
            total as nat == byte_sum(b@.subrange(0, i as int)),
            total <= 255 * i,
        decreases b.len() - i,
    {
        proof {
            assert(b@.subrange(0, i + 1).drop_last() =~= b@.subrange(0, i as int));
        }
        total = total + b[i] as u32;
        i = i + 1;
    }
    proof {
        assert(b@.subrange(0, b@.len() as int) =~= b@);
    }
    total
}

fn type_flag_of(k: EntryKind) -> (r: u8)
    ensures
        r == type_flag(k),
{
    match k {
        EntryKind::File => 0x30u8,
        EntryKind::Symlink => 0x32u8,
        EntryKind::CharDevice => 0x33u8,
        EntryKind::BlockDevice => 0x34u8,
        EntryKind::Directory => 0x35u8,
        EntryKind::Fifo => 0x36u8,
        EntryKind::Other => 0u8,
    }
}

/// The 512-byte UStar header of `entry`, named by its relative path.
pub fn header_block(entry: &SourceEntry) -> (r: Result<Vec<u8>, EntryError>)
    ensures
        r matches Ok(b) ==> header_of(*entry) == Ok::<Seq<u8>, EntryError>(b@),
        r matches Err(err) ==> header_of(*entry) == Err::<Seq<u8>, EntryError>(err),
{
    let path = as_relative(&entry.path);
    if utf8_text(&path).is_none() {
        return Err(EntryError::PathNotUtf8);
    }
    let secs: u64 = match entry.mtime {
        None => return Err(EntryError::MtimeUnavailable),
        Some(t) => {
            if t.secs < 0 {
                return Err(EntryError::MtimeBeforeEpoch);
            }
            t.secs as u64
        },
    };
    if entry.kind == EntryKind::Other {
        return Err(EntryError::UnsupportedKind);
    }
    let owner: &Vec<u8> = match &entry.owner {
        None => return Err(EntryError::UnknownOwner),
        Some(o) => o,
    };
    if utf8_text(owner).is_none() {
        return Err(EntryError::OwnerNotUtf8);
    }
    let group: &Vec<u8> = match &entry.group {
        None => return Err(EntryError::UnknownGroup),
        Some(g) => g,
    };
    if utf8_text(group).is_none() {
        return Err(EntryError::GroupNotUtf8);
    }
    let pre = unsigned_header(entry, &path, secs, owner, group);
    proof {
        lemma_unsigned_block_layout(*entry, secs as nat, owner@, group@);
    }
    Ok(sign(pre))
}

/// The prefix and name parts of `path`.
fn name_parts(path: &Vec<u8>) -> (r: (Vec<u8>, Vec<u8>))
    ensures
        r.0@ == name_prefix(path@),
        r.1@ == name_tail(path@),
{
    let plen = path.len();
    let ghost p = path@;
    let mut tail: Vec<u8> = Vec::new();
    let mut prefix: Vec<u8> = Vec::new();
    let split: usize = if plen <= 100 {
        0
    } else {
        plen - 100
    };
    let mut i: usize = 0;
    while i < plen
        invariant
            plen == p.len(),
            path@ == p,
            split == (if plen <= 100 { 0 } else { plen - 100 }),
            i <= plen,
            i <= split ==> prefix@ == p.subrange(0, i as int) && tail@.len() == 0,
            i > split ==> prefix@ == p.subrange(0, split as int) && tail@ == p.subrange(
                split as int,
                i as int,
            ),
        decreases plen - i,
    {
        if i < split {
            prefix.push(path[i]);
            proof {
                assert(p.subrange(0, i + 1) =~= p.subrange(0, i as int).push(p[i as int]));
            }
        } else {
            proof {
                if i == split {
                    assert(tail@ =~= p.subrange(split as int, i as int));
                }
            }
            tail.push(path[i]);
            proof {
                assert(p.subrange(split as int, i + 1) =~= p.subrange(split as int, i as int).push(
                    p[i as int],
                ));
            }
        }
        i = i + 1;
    }
    proof {
        if plen == 0 {
            assert(tail@ =~= name_tail(p));
            assert(prefix@ =~= name_prefix(p));
        } else {
            assert(prefix@ =~= name_prefix(p));
            assert(tail@ =~= name_tail(p));
        }
    }
    (prefix, tail)
}

/// The fixed magic and version bytes.
fn magic_bytes() -> (r: Vec<u8>)
    ensures
        r@ == magic(),
{
    let mut m: Vec<u8> = Vec::new();
    m.push(0x75u8);
    m.push(0x73u8);
    m.push(0x74u8);
    m.push(0x61u8);
    m.push(0x72u8);
    m.push(0x20u8);
    m.push(0x20u8);
    m.push(0u8);
    proof {
        assert(m@ =~= magic());
    }
    m
}

/// The header fields of `entry` in order, with the checksum field as spaces.
#[verifier::rlimit(40)]
fn unsigned_header(entry: &SourceEntry, path: &Vec<u8>, secs: u64, owner: &Vec<u8>, group: &Vec<u8>) -> (r: Vec<u8>)
    requires
        path@ == relative(entry.path@),
    ensures
        r@ == unsigned_block(*entry, secs as nat, owner@, group@),
{
    let mut full = crate::backup::copy_bytes(path);
    if entry.kind == EntryKind::Directory && !(full.len() > 0 && full[full.len() - 1] == 0x2fu8) {
        full.push(0x2fu8);
    }
    let (prefix, tail) = name_parts(&full);
    let mut block: Vec<u8> = Vec::new();
    push_field(&mut block, &tail, 100);
    let mode_digits = octal_digits((entry.mode & 0o7777u32) as u64, 7);
    push_field(&mut block, &mode_digits, 8);
    let uid_digits = octal_digits(entry.uid as u64, 7);
    push_field(&mut block, &uid_digits, 8);
    let gid_digits = octal_digits(entry.gid as u64, 7);
    push_field(&mut block, &gid_digits, 8);
    let size: u64 = if entry.kind == EntryKind::File {
        entry.size
    } else {
        0
    };
    let size_digits = octal_digits(size, 11);
    push_field(&mut block, &size_digits, 12);
    let mtime_digits = octal_digits(secs, 11);
    push_field(&mut block, &mtime_digits, 12);
    let mut k: usize = 0;
    let ghost before_sum = block@;
    while k < 8
        invariant
            k <= 8,
            block@ == before_sum + spaces(k as nat),
            before_sum.len() == 148,
        decreases 8 - k,
    {
        block.push(0x20u8);
        proof {
            assert(spaces((k + 1) as nat) =~= spaces(k as nat).push(0x20u8));
        }
        k = k + 1;
    }
    block.push(type_flag_of(entry.kind));
    let empty: Vec<u8> = Vec::new();
    match &entry.link_target {
        Some(t) => if entry.kind == EntryKind::Symlink {
            push_field(&mut block, t, 100)
        } else {
            push_field(&mut block, &empty, 100)
        },
        None => push_field(&mut block, &empty, 100),
    }
    let m = magic_bytes();
    push_field(&mut block, &m, 8);
    push_field(&mut block, owner, 32);
    push_field(&mut block, group, 32);
    push_field(&mut block, &empty, 16);
    push_field(&mut block, &prefix, 155);
    push_field(&mut block, &empty, 12);
    proof {
        reveal(unsigned_block);
        assert(field(magic(), 8) =~= magic());
        assert(field(empty@, 16) =~= zeros(16));
        assert(field(empty@, 12) =~= zeros(12));
        assert(block@ =~= unsigned_block(*entry, secs as nat, owner@, group@));
    }
    block
}

/// `pre` with its checksum field filled in.
fn sign(pre: Vec<u8>) -> (r: Vec<u8>)
    requires
        pre@.len() == 512,
        pre@.subrange(148, 156) == spaces(8),
    ensures
        r@ == signed_block(pre@),
{
    let mut block = pre;
    let sum = sum_bytes(&block);
    let digits = octal_digits(sum as u64, 6);
    proof {
        lemma_byte_sum_bound(block@);
        lemma_pow8_six();
        lemma_octal_len(sum as nat, 6);
    }
    let ghost pre = block@;
    let mut d: usize = 0;
    while d < 6
        invariant
            d <= 6,
            digits@.len() == 6,
            digits@ == octal(byte_sum(pre), 6),
            block@.len() == 512,
            pre.len() == 512,
            pre.subrange(148, 156) == spaces(8),
            forall|x: int| 0 <= x < 148 ==> block@[x] == pre[x],
            forall|x: int| 156 <= x < 512 ==> block@[x] == pre[x],
            forall|x: int| 148 + d <= x < 156 ==> block@[x] == pre[x],
            forall|x: int| 0 <= x < d ==> block@[148 + x] == digits@[x],
        decreases 6 - d,
    {
        block.set(148 + d, digits[d]);
        d = d + 1;
    }
    block.set(154, 0u8);
    proof {
        reveal(signed_block);
        let s = signed_block(pre);
        assert(s.len() == 512);
        assert forall|x: int| 0 <= x < 512 implies block@[x] == s[x] by {
            if 148 <= x < 154 {
                assert(s[x] == digits@[x - 148]);
            } else if x == 155 {
                assert(pre.subrange(148, 156)[7] == 0x20u8);
                assert(pre[155] == 0x20u8);
            }
        }
        assert(block@ =~= s);
    }
    block
}

/// The zero padding after a payload of `size` bytes.
pub fn padding_len(size: u64) -> (r: usize)
    ensures
        r as nat == padding_of(size as nat),
        r < 512,
{
    ((512 - size % 512) % 512) as usize
}

/// A sink that writes each entry as a UStar record to an archive stream.
pub struct TarOutputStream {
    records: u64,
}

impl TarOutputStream {
    pub closed spec fn record_count(&self) -> nat {
        self.records as nat
    }

    pub fn new() -> (r: TarOutputStream)
        ensures
            r.record_count() == 0,
    {
        TarOutputStream { records: 0 }
    }

    /// The number of records written so far.
    pub fn records(&self) -> (r: u64)
        ensures
            r == self.record_count(),
    {
        self.records
    }

    /// The two zero blocks that end an archive.
    pub fn trailer(&self) -> (r: Vec<u8>)
        ensures
            r@ == zeros(1024),
    {
        let mut out: Vec<u8> = Vec::new();
        let mut i: usize = 0;
        while i < 1024
            invariant
                i <= 1024,
                out@ == zeros(i as nat),
            decreases 1024 - i,
        {
            out.push(0u8);
            proof {
                assert(zeros((i + 1) as nat) =~= zeros(i as nat).push(0u8));
            }
            i = i + 1;
        }
        out
    }

    /// The record for `entry`: its header, its payload size, and the padding
    /// that closes the last block of the payload.
    pub fn record(&mut self, entry: &SourceEntry) -> (r: Result<OutputAction, EntryError>)
        ensures
            tar_step(*entry, r),
            r is Ok ==> final(self).record_count() == if old(self).record_count() < u64::MAX {
                old(self).record_count() + 1
            } else {
                old(self).record_count()
            },
            r is Err ==> final(self).record_count() == old(self).record_count(),
    {
        let header = header_block(entry)?;
        let data_len: u64 = if entry.kind == EntryKind::File {
            entry.size
        } else {
            0
        };
        if self.records < u64::MAX {
            self.records = self.records + 1;
        }
        let padding = padding_len(data_len);
        proof {
            lemma_record_aligned(data_len as nat);
            lemma_header_checksum(*entry);
        }
        Ok(OutputAction::Record { header, data_len, padding })
    }
}

/// `r` is how the tar sink stores `e`: a record of `e`'s header, its payload
/// size and the padding that fills the payload's last block, which together
/// take a whole number of blocks; or the error for which `e` has no header,
/// in which case nothing is written.
pub open spec fn tar_step(e: SourceEntry, r: Result<OutputAction, EntryError>) -> bool {
    match r {
        Ok(OutputAction::Record { header, data_len, padding }) => header_of(e) == Ok::<
            Seq<u8>,
            EntryError,
        >(header@) && header@.len() == 512 && data_len == payload_size(e) && padding as nat
            == padding_of(data_len as nat) && (512 + data_len + padding) % 512 == 0,
        Ok(_) => false,
        Err(err) => header_of(e) == Err::<Seq<u8>, EntryError>(err),
    }
}

proof fn lemma_record_aligned(d: nat)
    ensures
        (512 + d + padding_of(d)) % 512 == 0,
{
    let p = padding_of(d);
    assert((512 + d + p) % 512 == 0) by (nonlinear_arith)
        requires
            p == ((512 - d % 512) as nat) % 512,
    ;
}

impl BackupOutputStream for TarOutputStream {
    open spec fn refers(&self, src: SourceEntry, r: Option<Vec<u8>>) -> bool {
        r is None
    }

    open spec fn appends(
        &self,
        entry: SourceEntry,
        reference: Option<ReferenceEntry>,
        r: Result<OutputAction, EntryError>,
    ) -> bool {
        tar_step(entry, r)
    }

    fn reference_path(&self, src: &SourceEntry) -> (r: Option<Vec<u8>>) {
        None
    }

    fn append_file(&mut self, entry: &SourceEntry, reference: Option<ReferenceEntry>) -> (r: Result<
        OutputAction,
        EntryError,
    >) {
        self.record(entry)
    }
}

} // verus!
