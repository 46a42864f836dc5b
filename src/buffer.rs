//! A fixed-capacity message buffer with a cursor; every access is checked.
use vstd::prelude::*;
use vstd::utf8::encode_utf8;
use crate::text::{first_index_of, lemma_first_index_of, lemma_first_index_of_unique};
use crate::wire::{
    be16, be32, labels_ok, labels_wire, name_ok, name_wire, parse_name,
    parse_name_at, parse_u16, parse_u32, parse_u8, string_from_utf8_lossy, DecodeError,
    EncodeError, DOT, MAX_JUMPS, PACKET_SIZE, buffer_of,
};

verus! {

/// Bytes of one message and a cursor into them.
pub struct BytePacketBuffer {
    buf: Vec<u8>,
    pos: usize,
}

impl BytePacketBuffer {
    pub closed spec fn data(&self) -> Seq<u8> {
        self.buf@
    }

    pub closed spec fn cursor(&self) -> int {
        self.pos as int
    }

    /// The bytes before the cursor.
    pub open spec fn written(&self) -> Seq<u8> {
        self.data().take(self.cursor())
    }

    pub open spec fn wf(&self) -> bool {
        self.data().len() == PACKET_SIZE
    }

    /// An all-zero buffer with the cursor at the start.
    pub fn new() -> (r: BytePacketBuffer)
        ensures
            r.wf(),
            r.data() == Seq::new(PACKET_SIZE as nat, |i: int| 0u8),
            r.cursor() == 0,
    {
        let mut buf: Vec<u8> = Vec::new();
        while buf.len() < PACKET_SIZE
            invariant
                buf@.len() <= PACKET_SIZE,
                forall|i: int| 0 <= i < buf@.len() ==> buf@[i] == 0u8,
            decreases PACKET_SIZE - buf@.len(),
        {
            buf.push(0);
        }
        assert(buf@ =~= Seq::new(PACKET_SIZE as nat, |i: int| 0u8));
        BytePacketBuffer { buf, pos: 0 }
    }

    /// A buffer holding `data` (its first 512 bytes), cursor at the start.
    pub fn from_bytes(data: &[u8]) -> (r: BytePacketBuffer)
        ensures
            r.wf(),
            r.data() == buffer_of(data@),
            r.cursor() == 0,
    {
        let mut buf: Vec<u8> = Vec::new();
        while buf.len() < PACKET_SIZE
            invariant
                buf@.len() <= PACKET_SIZE,
                forall|i: int| 0 <= i < buf@.len() ==> buf@[i] == buffer_of(data@)[i],
            decreases PACKET_SIZE - buf@.len(),
        {
            let i = buf.len();
            if i < data.len() {
                buf.push(data[i]);
            } else {
                buf.push(0);
            }
        }
        assert(buf@ =~= buffer_of(data@));
        BytePacketBuffer { buf, pos: 0 }
    }

    /// The cursor.
    pub fn pos(&self) -> (r: usize)
        ensures
            r == self.cursor(),
    {
        self.pos
    }

    /// Moves the cursor forward by `steps`.
    pub fn step(&mut self, steps: usize)
        requires
            old(self).cursor() + steps <= usize::MAX,
        ensures
            final(self).data() == old(self).data(),
            final(self).cursor() == old(self).cursor() + steps,
    {
        self.pos = self.pos + steps;
    }

    /// Puts the cursor at `pos`.
    pub fn seek(&mut self, pos: usize)
        ensures
            final(self).data() == old(self).data(),
            final(self).cursor() == pos,
    {
        self.pos = pos;
    }

    /// The bytes written so far.
    pub fn filled(&self) -> (r: Vec<u8>)
        requires
            self.wf(),
            self.cursor() <= PACKET_SIZE,
        ensures
            r@ == self.written(),
    {
        let mut out: Vec<u8> = Vec::new();
        let mut i: usize = 0;
        while i < self.pos
            invariant
                self.wf(),
                self.pos <= PACKET_SIZE,
                i <= self.pos,
                out@ == self.buf@.take(i as int),
            decreases self.pos - i,
        {
            out.push(self.buf[i]);
            i += 1;
            assert(out@ =~= self.buf@.take(i as int));
        }
        out
    }

    // ----- reading -----

    /// The byte at `pos`, cursor unmoved.
    pub fn get(&self, pos: usize) -> (r: Result<u8, DecodeError>)
        requires
            self.wf(),
        ensures
            match parse_u8(self.data(), pos as int) {
                Ok((v, _)) => r == Ok::<u8, DecodeError>(v),
                Err(e) => r == Err::<u8, DecodeError>(e),
            },
    {
        if pos >= PACKET_SIZE {
            Err(DecodeError::BufferOverflow)
        } else {
            Ok(self.buf[pos])
        }
    }

    /// `len` bytes from `start`, cursor unmoved.
    pub fn get_range(&self, start: usize, len: usize) -> (r: Result<Vec<u8>, DecodeError>)
        requires
            self.wf(),
        ensures
            match r {
                Ok(v) => start + len <= PACKET_SIZE && v@ == self.data().subrange(
                    start as int,
                    start + len,
                ),
                Err(e) => e == DecodeError::BufferOverflow && start + len > PACKET_SIZE,
            },
    {
        if start > PACKET_SIZE || len > PACKET_SIZE - start {
            return Err(DecodeError::BufferOverflow);
        }
        let mut out: Vec<u8> = Vec::new();
        let mut i: usize = start;
        while i < start + len
            invariant
                self.wf(),
                start <= i <= start + len <= PACKET_SIZE,
                out@ == self.buf@.subrange(start as int, i as int),
            decreases start + len - i,
        {
            out.push(self.buf[i]);
            i += 1;
            assert(out@ =~= self.buf@.subrange(start as int, i as int));
        }
        Ok(out)
    }

    /// Reads one byte at the cursor.
    pub fn read(&mut self) -> (r: Result<u8, DecodeError>)
        requires
            old(self).wf(),
        ensures
            final(self).data() == old(self).data(),
            match parse_u8(old(self).data(), old(self).cursor()) {
                Ok((v, p)) => r == Ok::<u8, DecodeError>(v) && final(self).cursor() == p,
                Err(e) => r == Err::<u8, DecodeError>(e),
            },
    {
        if self.pos >= PACKET_SIZE {
            return Err(DecodeError::BufferOverflow);
        }
        let v = self.buf[self.pos];
        self.pos = self.pos + 1;
        Ok(v)
    }

    /// Reads a big-endian 16-bit number at the cursor.
    pub fn read_u16(&mut self) -> (r: Result<u16, DecodeError>)
        requires
            old(self).wf(),
        ensures
            final(self).data() == old(self).data(),
            match parse_u16(old(self).data(), old(self).cursor()) {
                Ok((v, p)) => r == Ok::<u16, DecodeError>(v) && final(self).cursor() == p,
                Err(e) => r == Err::<u16, DecodeError>(e),
            },
    {
        if self.pos >= PACKET_SIZE - 1 {
            return Err(DecodeError::BufferOverflow);
        }
        let hi = self.buf[self.pos] as u16;
        let lo = self.buf[self.pos + 1] as u16;
        self.pos = self.pos + 2;
        Ok(hi * 256 + lo)
    }

    /// Reads a big-endian 32-bit number at the cursor.
    pub fn read_u32(&mut self) -> (r: Result<u32, DecodeError>)
        requires
            old(self).wf(),
        ensures
            final(self).data() == old(self).data(),
            match parse_u32(old(self).data(), old(self).cursor()) {
                Ok((v, p)) => r == Ok::<u32, DecodeError>(v) && final(self).cursor() == p,
                Err(e) => r == Err::<u32, DecodeError>(e),
            },
    {
        if self.pos >= PACKET_SIZE - 3 {
            return Err(DecodeError::BufferOverflow);
        }
        let b0 = self.buf[self.pos] as u32;
        let b1 = self.buf[self.pos + 1] as u32;
        let b2 = self.buf[self.pos + 2] as u32;
        let b3 = self.buf[self.pos + 3] as u32;
        self.pos = self.pos + 4;
        Ok(b0 * 0x1000000 + b1 * 0x10000 + b2 * 256 + b3)
    }

    /// The dotted bytes of the name at `pos`, following pointers.
    fn name_bytes_at(&self, pos: usize, jumps: u8) -> (r: Result<(Vec<u8>, usize), DecodeError>)
        requires
            self.wf(),
            jumps <= MAX_JUMPS + 1,
        ensures
            match parse_name_at(self.data(), pos as int, jumps as int) {
                Ok((b, end)) => r matches Ok((v, e)) && v@ == b && e == end,
                Err(err) => r == Err::<(Vec<u8>, usize), DecodeError>(err),
            },
        decreases MAX_JUMPS + 1 - jumps, PACKET_SIZE - pos,
    {
        if jumps > MAX_JUMPS {
            return Err(DecodeError::MalformedName);
        }
        if pos >= PACKET_SIZE {
            return Err(DecodeError::BufferOverflow);
        }
        let len = self.buf[pos];
        if len >= 0xC0 {
            if pos + 1 >= PACKET_SIZE {
                return Err(DecodeError::BufferOverflow);
            }
            let offset = ((len - 0xC0) as usize) * 256 + self.buf[pos + 1] as usize;
            match self.name_bytes_at(offset, jumps + 1) {
                Ok((name, _)) => Ok((name, pos + 2)),
                Err(e) => Err(e),
            }
        } else if len == 0 {
            Ok((Vec::new(), pos + 1))
        } else {
            let l = len as usize;
            if pos + 1 + l > PACKET_SIZE {
                return Err(DecodeError::BufferOverflow);
            }
            match self.name_bytes_at(pos + 1 + l, jumps) {
                Ok((rest, end)) => {
                    let mut out: Vec<u8> = Vec::new();
                    let mut i: usize = pos + 1;
                    while i < pos + 1 + l
                        invariant
                            self.wf(),
                            pos + 1 <= i <= pos + 1 + l <= PACKET_SIZE,
                            out@ == self.buf@.subrange(pos + 1, i as int),
                        decreases pos + 1 + l - i,
                    {
                        out.push(self.buf[i]);
                        i += 1;
                        assert(out@ =~= self.buf@.subrange(pos + 1, i as int));
                    }
                    if rest.len() > 0 {
                        out.push(DOT);
                        let mut j: usize = 0;
                        let ghost base = out@;
                        while j < rest.len()
                            invariant
                                j <= rest@.len(),
                                out@ == base + rest@.take(j as int),
                            decreases rest@.len() - j,
                        {
                            out.push(rest[j]);
                            j += 1;
                            assert(out@ =~= base + rest@.take(j as int));
                        }
                        assert(rest@.take(j as int) =~= rest@);
                    }
                    Ok((out, end))
                },
                Err(e) => Err(e),
            }
        }
    }

    /// Reads a name at the cursor. After a pointer the cursor stands just
    /// past the first pointer; otherwise past the root label.
    pub fn read_qname(&mut self) -> (r: Result<String, DecodeError>)
        requires
            old(self).wf(),
        ensures
            final(self).data() == old(self).data(),
            match parse_name(old(self).data(), old(self).cursor()) {
                Ok((n, end)) => r matches Ok(s) && s@ == n && final(self).cursor() == end,
                Err(e) => r == Err::<String, DecodeError>(e),
            },
    {
        match self.name_bytes_at(self.pos, 0) {
            Ok((b, end)) => {
                self.pos = end;
                Ok(string_from_utf8_lossy(b.as_slice()))
            },
            Err(e) => Err(e),
        }
    }
    // ----- writing -----

    /// Writes `val` at the cursor.
    pub fn write(&mut self, val: u8) -> (r: Result<(), EncodeError>)
        requires
            old(self).wf(),
            old(self).cursor() <= PACKET_SIZE,
        ensures
            final(self).wf(),
            final(self).cursor() <= PACKET_SIZE,
            appended(old(self).written(), old(self).cursor(), final(self).written(), final(self).cursor(), r, seq![val]),
    {
        if self.pos >= PACKET_SIZE {
            return Err(EncodeError::BufferOverflow);
        }
        let ghost before = self.buf@;
        self.buf.set(self.pos, val);
        self.pos = self.pos + 1;
        assert(self.buf@.take(self.pos as int) =~= before.take(self.pos - 1) + seq![val]);
        Ok(())
    }

    /// Writes a big-endian 16-bit number at the cursor.
    pub fn write_u16(&mut self, val: u16) -> (r: Result<(), EncodeError>)
        requires
            old(self).wf(),
            old(self).cursor() <= PACKET_SIZE,
        ensures
            final(self).wf(),
            final(self).cursor() <= PACKET_SIZE,
            appended(old(self).written(), old(self).cursor(), final(self).written(), final(self).cursor(), r, be16(val)),
    {
        let ghost w0 = self.written();
        self.write((val / 256) as u8)?;
        self.write((val % 256) as u8)?;
        assert(self.written() =~= w0 + be16(val));
        Ok(())
    }

    /// Writes a big-endian 32-bit number at the cursor.
    pub fn write_u32(&mut self, val: u32) -> (r: Result<(), EncodeError>)
        requires
            old(self).wf(),
            old(self).cursor() <= PACKET_SIZE,
        ensures
            final(self).wf(),
            final(self).cursor() <= PACKET_SIZE,
            appended(old(self).written(), old(self).cursor(), final(self).written(), final(self).cursor(), r, be32(val)),
    {
        let ghost w0 = self.written();
        self.write((val / 0x1000000) as u8)?;
        self.write(((val / 0x10000) % 256) as u8)?;
        self.write(((val / 256) % 256) as u8)?;
        self.write((val % 256) as u8)?;
        assert(self.written() =~= w0 + be32(val));
        Ok(())
    }

    /// Writes `bytes[from..to]` at the cursor.
    pub fn write_bytes(&mut self, bytes: &[u8], from: usize, to: usize) -> (r: Result<(), EncodeError>)
        requires
            old(self).wf(),
            old(self).cursor() <= PACKET_SIZE,
            from <= to <= bytes@.len(),
        ensures
            final(self).wf(),
            final(self).cursor() <= PACKET_SIZE,
            appended(old(self).written(), old(self).cursor(), final(self).written(), final(self).cursor(), r, bytes@.subrange(from as int, to as int)),
    {
        let ghost w0 = self.written();
        let ghost c0 = self.cursor();
        let mut i: usize = from;
        while i < to
            invariant
                self.wf(),
                self.cursor() <= PACKET_SIZE,
                from <= i <= to <= bytes@.len(),
                c0 == old(self).cursor(),
                w0 == old(self).written(),
                self.cursor() == c0 + (i - from),
                self.written() == w0 + bytes@.subrange(from as int, i as int),
            decreases to - i,
        {
            let r = self.write(bytes[i]);
            if r.is_err() {
                assert(bytes@.subrange(from as int, to as int).len() == to - from);
                return r;
            }
            i += 1;
            assert(self.written() =~= w0 + bytes@.subrange(from as int, i as int));
        }
        Ok(())
    }

    /// Overwrites the byte at `pos`, cursor unmoved.
    pub fn set(&mut self, pos: usize, val: u8)
        requires
            old(self).wf(),
            pos < PACKET_SIZE,
        ensures
            final(self).wf(),
            final(self).data() == old(self).data().update(pos as int, val),
            final(self).cursor() == old(self).cursor(),
    {
        self.buf.set(pos, val);
    }

    /// Overwrites two bytes at `pos` with a big-endian number.
    pub fn set_u16(&mut self, pos: usize, val: u16)
        requires
            old(self).wf(),
            pos + 1 < PACKET_SIZE,
        ensures
            final(self).wf(),
            final(self).data() == old(self).data().update(pos as int, be16(val)[0]).update(
                pos + 1,
                be16(val)[1],
            ),
            final(self).cursor() == old(self).cursor(),
    {
        self.set(pos, (val / 256) as u8);
        self.set(pos + 1, (val % 256) as u8);
    }

    /// Writes a name as length-prefixed labels and the root label.
    pub fn write_qname(&mut self, name: &str) -> (r: Result<(), EncodeError>)
        requires
            old(self).wf(),
            old(self).cursor() <= PACKET_SIZE,
            name_ok(name@),
        ensures
            final(self).wf(),
            final(self).cursor() <= PACKET_SIZE,
            appended(old(self).written(), old(self).cursor(), final(self).written(), final(self).cursor(), r, name_wire(name@)),
    {
        let b = name.as_bytes();
        let ghost bs = b@;
        let ghost w0 = self.written();
        let ghost c0 = self.cursor();
        let ghost total = name_wire(name@);
        let mut s: usize = 0;
        let ghost mut done: Seq<u8> = Seq::empty();
        assert(bs.subrange(0, bs.len() as int) =~= bs);
        while s < b.len()
            invariant
                self.wf(),
                self.cursor() <= PACKET_SIZE,
                bs == b@,
                bs == encode_utf8(name@),
                total == labels_wire(bs) + seq![0u8],
                total == name_wire(name@),
                c0 == old(self).cursor(),
                w0 == old(self).written(),
                s <= bs.len(),
                labels_ok(bs.subrange(s as int, bs.len() as int)),
                done + labels_wire(bs.subrange(s as int, bs.len() as int)) == labels_wire(bs),
                self.cursor() == c0 + done.len(),
                self.written() == w0 + done,
            decreases bs.len() - s,
        {
            let ghost rest = bs.subrange(s as int, bs.len() as int);
            let e = byte_index_from(b, s, DOT);
            let ghost i = e - s;
            proof {
                lemma_first_index_of(rest, DOT);
                assert(rest.take(i) =~= bs.subrange(s as int, e as int));
            }
            let ghost tail = labels_wire(rest).subrange(1 + i, labels_wire(rest).len() as int);
            proof {
                if i < rest.len() {
                    assert(rest.subrange(i + 1, rest.len() as int) =~= bs.subrange(e + 1, bs.len() as int));
                    assert(labels_wire(rest) == seq![i as u8] + rest.take(i) + labels_wire(rest.subrange(i + 1, rest.len() as int)));
                    assert(tail =~= labels_wire(rest.subrange(i + 1, rest.len() as int)));
                } else {
                    assert(rest.take(i) =~= rest);
                }
                assert(labels_wire(rest) =~= seq![i as u8] + rest.take(i) + tail);
            }
            let r1 = self.write((e - s) as u8);
            if r1.is_err() {
                proof {
                    assert(total =~= done + (seq![i as u8] + rest.take(i) + tail) + seq![0u8]);
                    assert(total.len() >= done.len() + 1);
                    assert(total == name_wire(name@));
                }
                return r1;
            }
            let r2 = self.write_bytes(b, s, e);
            if r2.is_err() {
                proof {
                    assert(total =~= (done + seq![i as u8]) + rest.take(i) + (tail + seq![0u8]));
                    assert(total.len() >= done.len() + 1 + rest.take(i).len());
                    assert(rest.take(i).len() == e - s);
                    assert(total == name_wire(name@));
                }
                return r2;
            }
            proof {
                assert(self.written() =~= w0 + (done + seq![i as u8] + rest.take(i)));
                done = done + seq![i as u8] + rest.take(i);
            }
            if e == b.len() {
                s = e;
                proof {
                    assert(bs.subrange(s as int, bs.len() as int) =~= Seq::<u8>::empty());
                    assert(done + labels_wire(bs.subrange(s as int, bs.len() as int)) =~= labels_wire(bs));
                }
            } else {
                s = e + 1;
                proof {
                    assert(done + labels_wire(bs.subrange(s as int, bs.len() as int)) =~= labels_wire(bs));
                }
            }
        }
        proof {
            assert(bs.subrange(s as int, bs.len() as int) =~= Seq::<u8>::empty());
            assert(done =~= labels_wire(bs));
        }
        let r = self.write(0);
        proof {
            if r is Ok {
                assert(self.written() =~= w0 + total);
            }
        }
        r
    }
}

/// After writing `w`: on success the cursor moved by its length and the
/// bytes before it gained `w`; a failure means `w` did not fit.
pub open spec fn appended(
    w_old: Seq<u8>,
    c_old: int,
    w_new: Seq<u8>,
    c_new: int,
    r: Result<(), EncodeError>,
    w: Seq<u8>,
) -> bool {
    match r {
        Ok(()) => c_new == c_old + w.len() && w_new == w_old + w,
        Err(e) => e == EncodeError::BufferOverflow && c_old + w.len() > PACKET_SIZE,
    }
}

/// Index of the first `c` at or after `from`, or `b.len()`.
fn byte_index_from(b: &[u8], from: usize, c: u8) -> (r: usize)
    requires
        from <= b@.len(),
    ensures
        from <= r <= b@.len(),
        r - from == first_index_of(b@.subrange(from as int, b@.len() as int), c),
{
    let ghost rest = b@.subrange(from as int, b@.len() as int);
    let mut i: usize = from;
    while i < b.len()
        invariant
            from <= i <= b@.len(),
            rest == b@.subrange(from as int, b@.len() as int),
            forall|k: int| from <= k < i ==> b@[k] != c,
        decreases b@.len() - i,
    {
        if b[i] == c {
            proof {
                lemma_first_index_of_unique(rest, c, i - from);
            }
            return i;
        }
        i += 1;
    }
    proof {
        lemma_first_index_of_unique(rest, c, i - from);
    }
    i
}

/// Whether `name` can be written: no empty label and none over 63 bytes.
pub fn name_is_valid(name: &str) -> (r: bool)
    ensures
        r == name_ok(name@),
{
    let b = name.as_bytes();
    let ghost bs = b@;
    let mut s: usize = 0;
    assert(bs.subrange(0, bs.len() as int) =~= bs);
    while s < b.len()
        invariant
            bs == b@,
            bs == encode_utf8(name@),
            s <= bs.len(),
            labels_ok(bs) == labels_ok(bs.subrange(s as int, bs.len() as int)),
        decreases bs.len() - s,
    {
        let ghost rest = bs.subrange(s as int, bs.len() as int);
        let e = byte_index_from(b, s, DOT);
        proof {
            lemma_first_index_of(rest, DOT);
        }
        let i = e - s;
        if i < 1 || i > 63 {
            return false;
        }
        if e == b.len() {
            return true;
        }
        if e + 1 >= b.len() {
            return false;
        }
        s = e + 1;
        proof {
            assert(rest.subrange(i + 1, rest.len() as int) =~= bs.subrange(s as int, bs.len() as int));
        }
    }
    true
}

} // verus!
