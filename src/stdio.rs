//! The console line discipline: how received bytes are echoed and translated,
//! how output lines are framed, and the line editor that fills a command buffer.
//! The UART itself is driven outside the library.
use vstd::prelude::*;

verus! {

/// Line feed.
pub const LF: u8 = 0x0a;
/// Carriage return.
pub const CR: u8 = 0x0d;
/// Delete, the byte that erases the previous one.
pub const DEL: u8 = 0x7f;
/// Backspace.
pub const BS: u8 = 0x08;

/// The byte delivered for received byte `c`: both line ends become a line feed,
/// both erase keys become DEL.
pub open spec fn translated(c: u8) -> u8 {
    if c == CR || c == LF {
        LF
    } else if c == DEL || c == BS {
        DEL
    } else {
        c
    }
}

/// The bytes echoed back for received byte `c`.
pub open spec fn echo(c: u8) -> Seq<u8> {
    if c == CR || c == LF {
        seq![CR, LF]
    } else if c == DEL || c == BS {
        seq![BS, 0x20u8, BS]
    } else {
        seq![c]
    }
}

/// Handles one received byte: gives the byte delivered to the reader and the
/// bytes to echo.
pub fn recv(c: u8) -> (r: (u8, Vec<u8>))
    ensures
        r.0 == translated(c),
        r.1@ == echo(c),
{
    let mut out: Vec<u8> = Vec::new();
    if c == CR || c == LF {
        out.push(CR);
        out.push(LF);
        (LF, out)
    } else if c == DEL || c == BS {
        out.push(BS);
        out.push(0x20);
        out.push(BS);
        (DEL, out)
    } else {
        out.push(c);
        (c, out)
    }
}

/// Handles the received bytes `input` in order: `buf` gets the delivered bytes,
/// and the result is everything echoed.
pub fn read(buf: &mut Vec<u8>, input: &[u8]) -> (r: Vec<u8>)
    requires
        old(buf)@.len() == input@.len(),
    ensures
        final(buf)@.len() == input@.len(),
        forall|i: int| 0 <= i < input@.len() ==> #[trigger] final(buf)@[i] == translated(input@[i]),
        r@ == echo_all(input@),
{
    let mut out: Vec<u8> = Vec::new();
    let mut i: usize = 0;
    while i < input.len()
        invariant
            i <= input@.len(),
            buf@.len() == input@.len(),
            forall|j: int| 0 <= j < i ==> #[trigger] buf@[j] == translated(input@[j]),
            out@ == echo_all(input@.take(i as int)),
        decreases input@.len() - i,
    {
        let (d, e) = recv(input[i]);
        buf.set(i, d);
        let mut k: usize = 0;
        let ghost before = out@;
        while k < e.len()
            invariant
                k <= e@.len(),
                out@ == before + e@.take(k as int),
            decreases e@.len() - k,
        {
            out.push(e[k]);
            k = k + 1;
            proof {
                assert(e@.take(k as int) =~= e@.take(k - 1).push(e@[k - 1]));
            }
        }
        proof {
            assert(input@.take(i + 1).drop_last() =~= input@.take(i as int));
            assert(e@.take(k as int) =~= e@);
        }
        i = i + 1;
    }
    proof {
        assert(input@.take(i as int) =~= input@);
    }
    out
}

/// The echo of every byte of `s`, in order.
pub open spec fn echo_all(s: Seq<u8>) -> Seq<u8>
    decreases s.len(),
{
    if s.len() == 0 {
        Seq::empty()
    } else {
        echo_all(s.drop_last()) + echo(s.last())
    }
}

/// The bytes sent for `buf`: all of it.
pub fn write(buf: &[u8]) -> (r: Vec<u8>)
    ensures
        r@ == buf@,
{
    let mut out: Vec<u8> = Vec::new();
    let mut i: usize = 0;
    while i < buf.len()
        invariant
            i <= buf@.len(),
            out@ == buf@.take(i as int),
        decreases buf@.len() - i,
    {
        out.push(buf[i]);
        i = i + 1;
        proof {
            assert(buf@.take(i as int) =~= buf@.take(i - 1).push(buf@[i - 1]));
        }
    }
    proof {
        assert(buf@.take(i as int) =~= buf@);
    }
    out
}

/// `out` is the line of `buf` that ends before index `n`, the first NUL if there
/// is one, followed by CR LF.
pub open spec fn framed_line(buf: Seq<u8>, n: int, out: Seq<u8>) -> bool {
    &&& 0 <= n <= buf.len()
    &&& (n < buf.len() ==> buf[n] == 0)
    &&& forall|j: int| 0 <= j < n ==> #[trigger] buf[j] != 0
    &&& out == buf.take(n) + seq![CR, LF]
}

/// The bytes sent for the line in `buf`: what precedes its first NUL byte (all
/// of it when it has none), then CR LF.
pub fn puts(buf: &[u8]) -> (r: Vec<u8>)
    ensures
        exists|n: int| #[trigger] framed_line(buf@, n, r@),
{
    let mut out: Vec<u8> = Vec::new();
    let mut i: usize = 0;
    while i < buf.len() && buf[i] != 0
        invariant
            i <= buf@.len(),
            forall|j: int| 0 <= j < i ==> #[trigger] buf@[j] != 0,
            out@ == buf@.take(i as int),
        decreases buf@.len() - i,
    {
        out.push(buf[i]);
        i = i + 1;
        proof {
            assert(buf@.take(i as int) =~= buf@.take(i - 1).push(buf@[i - 1]));
        }
    }
    out.push(CR);
    out.push(LF);
    proof {
        assert(out@ =~= buf@.take(i as int) + seq![CR, LF]);
        assert(framed_line(buf@, i as int, out@));
    }
    out
}

/// The line editor's reaction to delivered byte `c`, with `i` bytes of the line in
/// `buf`: a line feed ends the line with a NUL if there is room for one, DEL
/// erases the last byte, any other byte is appended if there is room. Gives the
/// new buffer, the new length and whether the line ended.
pub open spec fn edit_step(buf: Seq<u8>, i: nat, c: u8) -> (Seq<u8>, nat, bool) {
    if c == LF {
        if i < buf.len() { (buf.update(i as int, 0), i, true) } else { (buf, i, false) }
    } else if c == DEL {
        if 0 < i < buf.len() { (buf.update(i - 1, 0), (i - 1) as nat, false) } else { (buf, i, false) }
    } else {
        if i < buf.len() { (buf.update(i as int, c), i + 1, false) } else { (buf, i, false) }
    }
}

/// The line editor after the first `n` bytes of `input`, starting from an empty
/// line in `buf`; it takes no byte after the line ended.
pub open spec fn edit_run(buf: Seq<u8>, input: Seq<u8>, n: nat) -> (Seq<u8>, nat, bool)
    decreases n,
{
    if n == 0 {
        (buf, 0, false)
    } else {
        let p = edit_run(buf, input, (n - 1) as nat);
        if p.2 { p } else { edit_step(p.0, p.1, input[n - 1]) }
    }
}

/// Edits a line into `buf` from the delivered bytes `input`. When a line ends,
/// gives its length and the number of bytes it took; `None` when `input` ran out
/// first.
pub fn gets(buf: &mut Vec<u8>, input: &[u8]) -> (r: Option<(usize, usize)>)
    ensures
        r is Some ==> {
            let len = r->Some_0.0;
            let n = r->Some_0.1;
            &&& 0 < n <= input@.len()
            &&& edit_run(old(buf)@, input@, n as nat) == (final(buf)@, len as nat, true)
            &&& !edit_run(old(buf)@, input@, (n - 1) as nat).2
        },
        r is None ==> edit_run(old(buf)@, input@, input@.len()) == (final(buf)@, edit_run(old(buf)@, input@, input@.len()).1, false),
{
    let ghost start = buf@;
    let mut i: usize = 0;
    let mut n: usize = 0;
    while n < input.len()
        invariant
            n <= input@.len(),
            start == old(buf)@,
            buf@.len() == start.len(),
            i <= buf@.len(),
            edit_run(start, input@, n as nat) == (buf@, i as nat, false),
        decreases input@.len() - n,
    {
        let c = input[n];
        let ghost before = buf@;
        n = n + 1;
        proof {
            assert(edit_run(start, input@, n as nat) == edit_step(before, i as nat, c));
        }
        if c == LF {
            if i < buf.len() {
                buf.set(i, 0);
                proof {
                    assert(edit_run(start, input@, n as nat) == (buf@, i as nat, true));
                    assert(!edit_run(start, input@, (n - 1) as nat).2);
                }
                return Some((i, n));
            }
        } else if c == DEL {
            if i < buf.len() && i > 0 {
                i = i - 1;
                buf.set(i, 0);
            }
        } else {
            if i < buf.len() {
                buf.set(i, c);
                i = i + 1;
            }
        }
    }
    None
}

} // verus!
