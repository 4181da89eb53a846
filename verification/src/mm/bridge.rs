//! The bridge between the kernel and user memory.
//!
//! A system call names user memory by a virtual address of the calling
//! task. Every access goes through this module, which looks each byte up
//! in the task's address space and refuses the whole access when one byte
//! of it is unmapped or lacks the permission: nothing is read or written
//! in that case. An access may cross from one page, or one region, into
//! the next.

use crate::mm::space::AddressSpace;
use crate::mm::space::SpaceView;
use vstd::prelude::*;

verus! {

/// A user address was unmapped or lacked the permission for the access.
#[derive(Clone, Copy, Debug, PartialEq, Eq, Structural)]
pub struct Fault;

/// `s` is the string at `va`: its bytes are not zero, a zero byte follows
/// them, and all of that is readable.
pub open spec fn str_at(space: SpaceView, va: usize, s: Seq<u8>) -> bool {
    &&& space.range_readable(va, s.len() + 1)
    &&& space.load(va, s.len()) == s
    &&& forall|i: int| 0 <= i < s.len() ==> s[i] != 0
    &&& space.mem[(va + s.len()) as usize] == 0
}

/// The four bytes of `x`, lowest first.
pub open spec fn u32_le(x: u32) -> Seq<u8> {
    seq![
        (x % 256) as u8,
        ((x / 256) % 256) as u8,
        ((x / 65536) % 256) as u8,
        ((x / 16777216) % 256) as u8,
    ]
}

/// The eight bytes of `x`, lowest first.
pub open spec fn u64_le(x: u64) -> Seq<u8> {
    u32_le((x % 0x1_0000_0000) as u32) + u32_le((x / 0x1_0000_0000) as u32)
}

/// The four bytes of `x` in two's complement, lowest first.
pub open spec fn i32_le(x: i32) -> Seq<u8> {
    u32_le(
        if x >= 0 {
            x as u32
        } else {
            (x + 0x1_0000_0000) as u32
        },
    )
}

/// The number whose four bytes, lowest first, are `b`.
pub open spec fn u32_of(b: Seq<u8>) -> u32 {
    (b[0] + 256 * b[1] + 65536 * b[2] + 16777216 * b[3]) as u32
}

/// The number whose four bytes in two's complement, lowest first, are
/// `b`.
pub open spec fn i32_of(b: Seq<u8>) -> i32 {
    let u = u32_of(b);
    if u < 0x8000_0000 {
        u as i32
    } else {
        (u - 0x1_0000_0000) as i32
    }
}

/// The four bytes of a number give the number back: no two numbers have
/// the same bytes.
pub proof fn lemma_u32_bytes(x: u32)
    ensures
        u32_le(x).len() == 4,
        u32_of(u32_le(x)) == x,
{
}

/// The four bytes of a signed number give the number back.
pub proof fn lemma_i32_bytes(x: i32)
    ensures
        i32_le(x).len() == 4,
        i32_of(i32_le(x)) == x,
{
    if x >= 0 {
        lemma_u32_bytes(x as u32);
    } else {
        lemma_u32_bytes((x + 0x1_0000_0000) as u32);
    }
}

/// The number whose four bytes in two's complement, lowest first, are
/// the first four of `b`.
pub fn i32_from_le(b: &Vec<u8>) -> (x: i32)
    requires
        b.len() >= 4,
    ensures
        x == i32_of(b@),
{
    let u: u32 = b[0] as u32 + 256 * (b[1] as u32) + 65536 * (b[2] as u32) + 16777216 * (
    b[3] as u32);
    if u < 0x8000_0000 {
        u as i32
    } else {
        (u as i64 - 0x1_0000_0000) as i32
    }
}

/// Appends the four bytes of `x`, lowest first.
pub fn push_u32(buf: &mut Vec<u8>, x: u32)
    ensures
        final(buf)@ == old(buf)@ + u32_le(x),
{
    buf.push((x % 256) as u8);
    buf.push(((x / 256) % 256) as u8);
    buf.push(((x / 65536) % 256) as u8);
    buf.push(((x / 16777216) % 256) as u8);
    assert(buf@ =~= old(buf)@ + u32_le(x));
}

/// Appends the eight bytes of `x`, lowest first.
pub fn push_u64(buf: &mut Vec<u8>, x: u64)
    ensures
        final(buf)@ == old(buf)@ + u64_le(x),
{
    push_u32(buf, (x % 0x1_0000_0000) as u32);
    push_u32(buf, (x / 0x1_0000_0000) as u32);
    assert(buf@ =~= old(buf)@ + u64_le(x));
}

/// Appends the four bytes of `x` in two's complement, lowest first.
pub fn push_i32(buf: &mut Vec<u8>, x: i32)
    ensures
        final(buf)@ == old(buf)@ + i32_le(x),
{
    let u: u32 = if x >= 0 {
        x as u32
    } else {
        (x as i64 + 0x1_0000_0000) as u32
    };
    push_u32(buf, u);
}

/// Reads `len` bytes of user memory from `va` on.
pub fn read_bytes(space: &AddressSpace, va: usize, len: usize) -> (r: Result<Vec<u8>, Fault>)
    requires
        space.wf(),
    ensures
        r is Ok <==> space@.range_readable(va, len as nat),
        r matches Ok(v) ==> v@ == space@.load(va, len as nat),
{
    let mut out: Vec<u8> = Vec::new();
    let mut i: usize = 0;
    while i < len
        invariant
            i <= len,
            space.wf(),
            out.len() == i,
            space@.range_readable(va, i as nat),
            forall|j: int| 0 <= j < i ==> out[j] == space@.mem[(va + j) as usize],
        decreases len - i,
    {
        if va > usize::MAX - i {
            proof {
                assert(!space@.readable_at(va + i));
            }
            return Err(Fault);
        }
        match space.peek(va + i) {
            Some(b) => {
                assert(space@.readable_at(va + i));
                out.push(b);
            },
            None => {
                proof {
                    assert(!space@.readable_at(va + i));
                }
                return Err(Fault);
            },
        }
        i += 1;
    }
    assert(out@ =~= space@.load(va, len as nat));
    Ok(out)
}

/// Writes `bytes` to user memory from `va` on. Either all of them are
/// written or none.
pub fn write_bytes(space: &mut AddressSpace, va: usize, bytes: &Vec<u8>) -> (r: Result<
    (),
    Fault,
>)
    requires
        old(space).wf(),
    ensures
        final(space).wf(),
        final(space).frames() == old(space).frames(),
        r is Ok <==> old(space)@.range_writable(va, bytes.len() as nat),
        r is Ok ==> final(space)@ == old(space)@.after_store(va, bytes@),
        r is Err ==> *final(space) == *old(space),
        final(space).keeps_frames(old(space)),
{
    let len = bytes.len();
    let mut i: usize = 0;
    while i < len
        invariant
            i <= len,
            len == bytes.len(),
            space.wf(),
            *space == *old(space),
            space@.range_writable(va, i as nat),
        decreases len - i,
    {
        if va > usize::MAX - i || !space.can_write(va + i) {
            proof {
                assert(!old(space)@.writable_at(va + i));
            }
            return Err(Fault);
        }
        assert(space@.writable_at(va + i));
        i += 1;
    }
    let mut i: usize = 0;
    assert(space@.mem =~= old(space)@.after_store(va, bytes@.subrange(0, 0)).mem);
    while i < len
        invariant
            i <= len,
            len == bytes.len(),
            space.wf(),
            space.frames() == old(space).frames(),
            old(space)@.range_writable(va, len as nat),
            space@ == old(space)@.after_store(va, bytes@.subrange(0, i as int)),
            space.keeps_frames(old(space)),
        decreases len - i,
    {
        let ghost before = space@;
        let ghost was = *space;
        assert(old(space)@.writable_at(va + i));
        assert(space@.regions == old(space)@.regions);
        assert(space@.writable((va + i) as usize));
        let ok = space.poke(va + i, bytes[i]);
        proof {
            let done = bytes@.subrange(0, i as int);
            let more = bytes@.subrange(0, i + 1);
            let next = old(space)@.after_store(va, more);
            assert(ok);
            assert forall|a: usize| #[trigger] next.mem.dom().contains(a) implies space@.mem[a]
                == next.mem[a] by {
                if a == va + i {
                    assert(seq![bytes[i as int]][a - (va + i)] == more[a - va]);
                } else if va <= a < va + i {
                    assert(done[a - va] == more[a - va]);
                }
            }
            assert(space@.mem =~= next.mem);
            assert forall|a: usize| old(space)@.covers(a) && space@.covers(a) implies #[trigger] space.frame_of(
            a) == old(space).frame_of(a) by {
                assert(was@.covers(a));
                assert(space.frame_of(a) == was.frame_of(a));
            }
        }
        i += 1;
    }
    assert(bytes@.subrange(0, len as int) =~= bytes@);
    Ok(())
}

/// Reads the signed number in the four bytes of user memory at `va`.
pub fn read_i32(space: &AddressSpace, va: usize) -> (r: Result<i32, Fault>)
    requires
        space.wf(),
    ensures
        r is Ok <==> space@.range_readable(va, 4),
        r matches Ok(x) ==> x == i32_of(space@.load(va, 4)),
{
    match read_bytes(space, va, 4) {
        Ok(bytes) => Ok(i32_from_le(&bytes)),
        Err(fault) => Err(fault),
    }
}

/// Writes the signed number `x` to the four bytes of user memory at `va`,
/// or writes nothing.
pub fn write_i32(space: &mut AddressSpace, va: usize, x: i32) -> (r: Result<(), Fault>)
    requires
        old(space).wf(),
    ensures
        final(space).wf(),
        final(space).frames() == old(space).frames(),
        r is Ok <==> old(space)@.range_writable(va, 4),
        r is Ok ==> final(space)@ == old(space)@.after_store(va, i32_le(x)),
        r is Err ==> *final(space) == *old(space),
        final(space).keeps_frames(old(space)),
{
    let mut bytes: Vec<u8> = Vec::new();
    push_i32(&mut bytes, x);
    assert(bytes@ =~= i32_le(x));
    write_bytes(space, va, &bytes)
}

/// At most one string stands at an address.
pub proof fn lemma_str_unique(space: SpaceView, va: usize, s: Seq<u8>, t: Seq<u8>)
    requires
        str_at(space, va, s),
        str_at(space, va, t),
    ensures
        s == t,
{
    if s.len() < t.len() {
        assert(space.load(va, t.len())[s.len() as int] == t[s.len() as int]);
    } else if t.len() < s.len() {
        assert(space.load(va, s.len())[t.len() as int] == s[t.len() as int]);
    } else {
        assert(s =~= t) by {
            assert forall|i: int| 0 <= i < s.len() implies s[i] == t[i] by {
                assert(space.load(va, s.len())[i] == s[i]);
                assert(space.load(va, t.len())[i] == t[i]);
            }
        }
    }
}

/// The string at `va`, if user code may read one there.
pub open spec fn string_at(space: SpaceView, va: usize) -> Option<Seq<u8>> {
    if exists|s: Seq<u8>| str_at(space, va, s) {
        Some(choose|s: Seq<u8>| str_at(space, va, s))
    } else {
        None
    }
}

/// Reads the zero-terminated string of user memory at `va`, without its
/// terminator.
pub fn read_str(space: &AddressSpace, va: usize) -> (r: Result<Vec<u8>, Fault>)
    requires
        space.wf(),
    ensures
        match string_at(space@, va) {
            Some(s) => r is Ok && r.unwrap()@ == s,
            None => r is Err,
        },
        r matches Ok(s) ==> str_at(space@, va, s@),
{
    let mut out: Vec<u8> = Vec::new();
    let mut i: usize = 0;
    loop
        invariant
            space.wf(),
            out.len() == i,
            space@.range_readable(va, i as nat),
            forall|j: int| 0 <= j < i ==> out[j] == space@.mem[(va + j) as usize] && out[j] != 0,
        decreases usize::MAX - i,
    {
        let b = if va > usize::MAX - i {
            None
        } else {
            space.peek(va + i)
        };
        match b {
            Some(b) => {
                assert(space@.readable_at(va + i));
                if b == 0 {
                    proof {
                        assert(out@ =~= space@.load(va, i as nat));
                        assert(str_at(space@, va, out@));
                        lemma_str_unique(space@, va, out@, string_at(space@, va).unwrap());
                    }
                    return Ok(out);
                }
                out.push(b);
            },
            None => {
                proof {
                    assert(!space@.readable_at(va + i));
                    assert forall|s: Seq<u8>| !str_at(space@, va, s) by {
                        if str_at(space@, va, s) {
                            if s.len() < i {
                                assert(out[s.len() as int] != 0);
                            } else {
                                assert(space@.readable_at(va + i));
                            }
                        }
                    }
                }
                return Err(Fault);
            },
        }
        i += 1;
    }
}

/// The bytes of the numbers of `s`, four for each, lowest first.
pub open spec fn u32s_le(s: Seq<u32>) -> Seq<u8>
    decreases s.len(),
{
    if s.len() == 0 {
        Seq::empty()
    } else {
        u32s_le(s.drop_last()) + u32_le(s.last())
    }
}

/// Appends the bytes of the numbers of `v`, four for each, lowest first.
pub fn push_u32s(buf: &mut Vec<u8>, v: &Vec<u32>)
    ensures
        final(buf)@ == old(buf)@ + u32s_le(v@),
{
    let mut i: usize = 0;
    assert(buf@ =~= old(buf)@ + u32s_le(v@.subrange(0, 0)));
    while i < v.len()
        invariant
            i <= v.len(),
            buf@ == old(buf)@ + u32s_le(v@.subrange(0, i as int)),
        decreases v.len() - i,
    {
        push_u32(buf, v[i]);
        proof {
            let more = v@.subrange(0, i + 1);
            assert(more.drop_last() =~= v@.subrange(0, i as int));
            assert(more.last() == v[i as int]);
            assert(buf@ =~= old(buf)@ + u32s_le(more));
        }
        i += 1;
    }
    assert(v@.subrange(0, v.len() as int) =~= v@);
}

} // verus!
