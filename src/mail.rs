//! A mailbox: a ring of 16 slots of up to 256 bytes, one message per slot.
use vstd::prelude::*;

verus! {

/// A user buffer as the kernel sees it: pieces of physical frames that,
/// one after the other, cover the user range.
pub struct UserBuffer {
    /// The pieces, in address order
    pub buffers: Vec<Vec<u8>>,
}

/// The bytes of `pieces` one after the other.
pub open spec fn concat(pieces: Seq<Seq<u8>>) -> Seq<u8>
    decreases pieces.len(),
{
    if pieces.len() == 0 {
        Seq::empty()
    } else {
        concat(pieces.drop_last()) + pieces.last()
    }
}

impl UserBuffer {
    /// The pieces as plain byte sequences.
    pub open spec fn pieces(&self) -> Seq<Seq<u8>> {
        self.buffers@.map_values(|b: Vec<u8>| b@)
    }

    /// The bytes of the whole buffer.
    pub open spec fn bytes(&self) -> Seq<u8> {
        concat(self.pieces())
    }

    /// Total length of the pieces.
    pub fn len(&self) -> (r: usize)
        requires
            self.bytes().len() <= usize::MAX,
        ensures
            r == self.bytes().len(),
    {
        let mut total: usize = 0;
        let mut i: usize = 0;
        while i < self.buffers.len()
            invariant
                i <= self.buffers@.len(),
                self.bytes().len() <= usize::MAX,
                total == concat(self.pieces().take(i as int)).len(),
            decreases self.buffers@.len() - i,
        {
            proof {
                assert(self.pieces().take(i + 1).drop_last() =~= self.pieces().take(i as int));
                lemma_concat_prefix_len(self.pieces(), i + 1);
            }
            total = total + self.buffers[i].len();
            i = i + 1;
        }
        assert(self.pieces().take(i as int) =~= self.pieces());
        total
    }
}

/// A prefix of the pieces gives a prefix of the bytes.
proof fn lemma_concat_prefix_len(pieces: Seq<Seq<u8>>, i: int)
    requires
        0 <= i <= pieces.len(),
    ensures
        concat(pieces.take(i)).len() <= concat(pieces).len(),
    decreases pieces.len(),
{
    if i < pieces.len() {
        assert(pieces.take(i) =~= pieces.drop_last().take(i));
        lemma_concat_prefix_len(pieces.drop_last(), i);
    } else {
        assert(pieces.take(i) =~= pieces);
    }
}

/// Number of slots.
pub const MAIL_SLOTS: usize = 16;

/// Size of a slot in bytes.
pub const MAIL_SLOT_SIZE: usize = 256;

/// A ring of message slots: messages are written at `head` and read at
/// `tail`; the ring is full when advancing `head` would reach `tail`.
pub struct MailBox {
    /// Message bytes, one slot each
    pub buffer: Vec<Vec<u8>>,
    /// Length of the message in each slot, modulo 256
    pub buffer_len: Vec<u8>,
    /// Next slot to write
    pub head: u8,
    /// Next slot to read
    pub tail: u8,
}

/// The slot after `pos`.
pub open spec fn next_slot(pos: u8) -> u8 {
    ((pos + 1) % 16) as u8
}

impl MailBox {
    /// Sixteen slots of 256 bytes, positions in range.
    pub open spec fn wf(&self) -> bool {
        &&& self.buffer@.len() == MAIL_SLOTS
        &&& forall|i: int| 0 <= i < MAIL_SLOTS ==> (#[trigger] self.buffer@[i])@.len() == MAIL_SLOT_SIZE
        &&& self.buffer_len@.len() == MAIL_SLOTS
        &&& self.head < 16
        &&& self.tail < 16
    }

    /// An empty mailbox.
    pub fn new() -> (r: Self)
        ensures
            r.wf(),
            r.head == r.tail,
    {
        let mut buffer: Vec<Vec<u8>> = Vec::new();
        let mut buffer_len: Vec<u8> = Vec::new();
        let mut i: usize = 0;
        while i < MAIL_SLOTS
            invariant
                i <= MAIL_SLOTS,
                buffer@.len() == i,
                buffer_len@.len() == i,
                forall|k: int| 0 <= k < i ==> (#[trigger] buffer@[k])@.len() == MAIL_SLOT_SIZE,
            decreases MAIL_SLOTS - i,
        {
            buffer.push(vec![0u8; MAIL_SLOT_SIZE]);
            buffer_len.push(0);
            i = i + 1;
        }
        MailBox { buffer, buffer_len, head: 0, tail: 0 }
    }

    /// The slot after `pos`.
    pub fn next(&self, pos: u8) -> (r: u8)
        requires
            pos < 16,
        ensures
            r == next_slot(pos),
            r < 16,
    {
        (pos + 1) % 16
    }

    /// Stores the bytes of `data` as a message. False, and nothing stored,
    /// when the ring is full; an empty message succeeds and stores nothing.
    pub fn write(&mut self, data: &UserBuffer) -> (r: bool)
        requires
            old(self).wf(),
            data.bytes().len() <= MAIL_SLOT_SIZE,
        ensures
            final(self).wf(),
            r == (next_slot(old(self).head) != old(self).tail),
            !r || data.bytes().len() == 0 ==> *final(self) == *old(self),
            r && data.bytes().len() > 0 ==> {
                let h = old(self).head as int;
                &&& final(self).tail == old(self).tail
                &&& final(self).head == next_slot(old(self).head)
                &&& final(self).buffer@[h]@.take(data.bytes().len() as int) == data.bytes()
                &&& final(self).buffer_len@ == old(self).buffer_len@.update(h, data.bytes().len() as u8)
                &&& forall|i: int| 0 <= i < MAIL_SLOTS && i != h ==> #[trigger] final(self).buffer@[i] == old(self).buffer@[i]
            },
    {
        let len = data.len();
        if self.next(self.head) == self.tail {
            return false;
        }
        if len == 0 {
            return true;
        }
        let h = self.head as usize;
        let ghost pieces = data.pieces();
        let mut off: usize = 0;
        let mut i: usize = 0;
        while i < data.buffers.len()
            invariant
                self.wf(),
                h < 16,
                h == old(self).head,
                self.head == old(self).head,
                self.tail == old(self).tail,
                self.buffer_len == old(self).buffer_len,
                pieces == data.pieces(),
                i <= pieces.len(),
                concat(pieces).len() <= MAIL_SLOT_SIZE,
                off == concat(pieces.take(i as int)).len(),
                self.buffer@[h as int]@.take(off as int) == concat(pieces.take(i as int)),
                forall|j: int| 0 <= j < MAIL_SLOTS && j != h ==> #[trigger] self.buffer@[j] == old(self).buffer@[j],
            decreases pieces.len() - i,
        {
            proof {
                assert(pieces.take(i + 1).drop_last() =~= pieces.take(i as int));
                lemma_concat_prefix_len(pieces, i + 1);
            }
            let n = data.buffers[i].len();
            let mut c: usize = 0;
            while c < n
                invariant
                    self.wf(),
                    h < 16,
                    off + n <= MAIL_SLOT_SIZE,
                    n == pieces[i as int].len(),
                    pieces == data.pieces(),
                    i < pieces.len(),
                    c <= n,
                    self.buffer@[h as int]@.take(off + c) == concat(pieces.take(i as int)) + pieces[i as int].take(c as int),
                    forall|j: int| 0 <= j < MAIL_SLOTS && j != h ==> #[trigger] self.buffer@[j] == old(self).buffer@[j],
                    self.head == old(self).head,
                    self.tail == old(self).tail,
                    self.buffer_len == old(self).buffer_len,
                decreases n - c,
            {
                let b = data.buffers[i][c];
                let ghost row = self.buffer@[h as int]@;
                self.buffer[h].set(off + c, b);
                proof {
                    assert(self.buffer@[h as int]@.take(off + c + 1) =~= row.take(off + c).push(b));
                    assert(pieces[i as int].take(c + 1) =~= pieces[i as int].take(c as int).push(b));
                    assert(self.buffer@[h as int]@.take(off + c + 1) =~= concat(pieces.take(i as int)) + pieces[i as int].take(c + 1));
                }
                c = c + 1;
            }
            proof {
                assert(pieces[i as int].take(n as int) =~= pieces[i as int]);
            }
            off = off + n;
            i = i + 1;
        }
        assert(pieces.take(i as int) =~= pieces);
        let stored = #[verifier::truncate] (len as u8);
        self.buffer_len.set(h, stored);
        self.head = self.next(self.head);
        true
    }
}


/// `old` with its first `n` bytes (as far as it reaches) taken from `msg`.
pub open spec fn overlay(old: Seq<u8>, msg: Seq<u8>, n: int) -> Seq<u8> {
    Seq::new(old.len(), |g: int| if g < n { msg[g] } else { old[g] })
}

impl MailBox {
    /// Reads the oldest message into `data`, up to the buffer's length:
    /// -1 when the mailbox is empty; 0, with nothing consumed, for an empty
    /// buffer; otherwise the number of bytes copied, and the message is
    /// consumed even when it did not fit.
    pub fn read(&mut self, data: &mut UserBuffer) -> (r: isize)
        requires
            old(self).wf(),
            old(data).bytes().len() <= MAIL_SLOT_SIZE,
        ensures
            final(self).wf(),
            old(self).head == old(self).tail ==> r == -1 && *final(self) == *old(self)
                && *final(data) == *old(data),
            old(self).head != old(self).tail && old(data).bytes().len() == 0 ==> r == 0
                && *final(self) == *old(self) && *final(data) == *old(data),
            old(self).head != old(self).tail && old(data).bytes().len() > 0 ==> {
                let t = old(self).tail as int;
                let n = if old(data).bytes().len() < old(self).buffer_len@[t] as int {
                    old(data).bytes().len() as int
                } else {
                    old(self).buffer_len@[t] as int
                };
                &&& r == n
                &&& final(self).buffer == old(self).buffer
                &&& final(self).buffer_len == old(self).buffer_len
                &&& final(self).head == old(self).head
                &&& final(self).tail == next_slot(old(self).tail)
                &&& final(data).pieces().len() == old(data).pieces().len()
                &&& forall|j: int| 0 <= j < old(data).pieces().len() ==> (#[trigger] final(data).pieces()[j]).len() == old(data).pieces()[j].len()
                &&& final(data).bytes() == overlay(old(data).bytes(), old(self).buffer@[t]@, n)
            },
    {
        let len = data.len();
        if self.head == self.tail {
            return -1;
        }
        if len == 0 {
            return 0;
        }
        let t = self.tail as usize;
        let stored = self.buffer_len[t] as usize;
        let n = if len < stored { len } else { stored };
        let ghost msg = self.buffer@[t as int]@;
        let ghost start_pieces = data.pieces();
        let count = data.buffers.len();
        let mut done: usize = 0;
        let mut j: usize = 0;
        while j < count
            invariant
                self.wf(),
                *self == *old(self),
                t == self.tail,
                msg == self.buffer@[t as int]@,
                msg.len() == MAIL_SLOT_SIZE,
                n <= len,
                len == concat(start_pieces).len(),
                len <= MAIL_SLOT_SIZE,
                start_pieces == old(data).pieces(),
                count == start_pieces.len(),
                data.pieces().len() == count,
                j <= count,
                forall|j2: int| 0 <= j2 < count ==> (#[trigger] data.pieces()[j2]).len() == start_pieces[j2].len(),
                forall|j2: int| j <= j2 < count ==> #[trigger] data.pieces()[j2] == start_pieces[j2],
                done == concat(start_pieces.take(j as int)).len(),
                concat(data.pieces().take(j as int)) == overlay(concat(start_pieces.take(j as int)), msg, n as int),
            decreases count - j,
        {
            proof {
                assert(start_pieces.take(j + 1).drop_last() =~= start_pieces.take(j as int));
                lemma_concat_prefix_len(start_pieces, j + 1);
            }
            let plen = data.buffers[j].len();
            let size = if done >= n {
                0
            } else if plen < n - done {
                plen
            } else {
                n - done
            };
            let ghost row0 = data.pieces()[j as int];
            let ghost pcur = data.pieces();
            let mut c: usize = 0;
            while c < size
                invariant
                    *self == *old(self),
                    t == self.tail,
                    self.wf(),
                    msg == self.buffer@[t as int]@,
                    msg.len() == MAIL_SLOT_SIZE,
                    j < count,
                    count == data.pieces().len(),
                    c <= size,
                    size <= plen,
                    plen == row0.len(),
                    row0 == start_pieces[j as int],
                    size > 0 ==> done + size <= n,
                    n <= MAIL_SLOT_SIZE,
                    pcur.len() == count,
                    data.pieces()[j as int].len() == plen,
                    forall|c2: int| 0 <= c2 < plen ==> #[trigger] data.pieces()[j as int][c2] == if c2 < c {
                        msg[done + c2]
                    } else {
                        row0[c2]
                    },
                    forall|j2: int| 0 <= j2 < count && j2 != j ==> #[trigger] data.pieces()[j2] == pcur[j2],
                decreases size - c,
            {
                let b = self.buffer[t][done + c];
                let ghost vb = data.buffers@;
                let ghost pb = data.pieces();
                data.buffers[j].set(c, b);
                proof {
                    assert forall|j2: int| 0 <= j2 < count && j2 != j implies #[trigger] data.pieces()[j2] == pcur[j2] by {
                        assert(data.buffers@[j2] == vb[j2]);
                        assert(pb[j2] == vb[j2]@);
                        assert(pb[j2] == pcur[j2]);
                        assert(data.pieces()[j2] == data.buffers@[j2]@);
                    }
                }
                c = c + 1;
            }
            proof {
                let p1 = data.pieces();
                assert(p1.take(j + 1).drop_last() =~= p1.take(j as int));
                assert(p1.take(j as int) =~= pcur.take(j as int));
                let lhs = concat(p1.take(j + 1));
                let rhs = overlay(concat(start_pieces.take(j + 1)), msg, n as int);
                assert(lhs.len() == rhs.len());
                assert forall|g: int| 0 <= g < lhs.len() implies lhs[g] == rhs[g] by {
                    if g < done {
                    } else {
                        assert(lhs[g] == p1[j as int][g - done]);
                    }
                }
                assert(lhs =~= rhs);
            }
            done = done + plen;
            j = j + 1;
        }
        assert(start_pieces.take(count as int) =~= start_pieces);
        assert(data.pieces().take(count as int) =~= data.pieces());
        self.tail = self.next(self.tail);
        n as isize
    }
}

} // verus!
