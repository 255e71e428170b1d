//! The kernel log: a ring of the most recent output bytes, and the
//! decisions of what each console is to be shown.
use vstd::prelude::*;
use crate::list::List;

verus! {

/// Capacity of the log ring in bytes; a power of two.
pub const CAP: usize = 8192;

/// The last `CAP` bytes of `t` (all of them when there are fewer).
pub open spec fn last_cap(t: Seq<u8>) -> Seq<u8> {
    if t.len() <= CAP {
        t
    } else {
        t.subrange(t.len() - CAP, t.len() as int)
    }
}

/// The ring wraps along with the word: `CAP` divides `usize::MAX + 1`.
proof fn lemma_word_multiple()
    ensures
        (usize::MAX as int + 1) % (CAP as int) == 0,
{
    assert(usize::MAX == 0xffff_ffff || usize::MAX == 0xffff_ffff_ffff_ffff);
}

/// Keeping the last `CAP` bytes commutes with appending one byte.
proof fn lemma_last_cap_push(t: Seq<u8>, c: u8)
    ensures
        last_cap(t.push(c)) == if last_cap(t).len() < CAP {
            last_cap(t).push(c)
        } else {
            last_cap(t).drop_first().push(c)
        },
{
    if t.len() >= CAP {
        assert(last_cap(t.push(c)) =~= last_cap(t).drop_first().push(c));
    } else {
        assert(last_cap(t.push(c)) =~= last_cap(t).push(c));
    }
}

/// Counters less than a ring apart sit at different places of the ring.
proof fn lemma_distinct_residues(a: int, i: int, j: int, m: int)
    requires
        0 <= a,
        0 <= i < j < m,
    ensures
        (a + i) % m != (a + j) % m,
{
    vstd::arithmetic::div_mod::lemma_fundamental_div_mod(a + i, m);
    vstd::arithmetic::div_mod::lemma_fundamental_div_mod(a + j, m);
    let q1 = (a + i) / m;
    let q2 = (a + j) / m;
    if (a + i) % m == (a + j) % m {
        assert(m * (q2 - q1) == j - i) by (nonlinear_arith)
            requires
                a + i == m * q1 + (a + i) % m,
                a + j == m * q2 + (a + j) % m,
                (a + i) % m == (a + j) % m,
        ;
        assert(false) by (nonlinear_arith)
            requires
                m * (q2 - q1) == j - i,
                0 < j - i < m,
        ;
    }
}

/// The ring of recent log output.
pub struct Log {
    head: usize,
    tail: usize,
    pending: usize,
    buf: Vec<u8>,
    contents: Ghost<Seq<u8>>,
}

impl Log {
    /// Number of bytes held: `tail - head` counted modulo the word.
    pub closed spec fn held(&self) -> int {
        if self.tail >= self.head {
            self.tail - self.head
        } else {
            self.tail - self.head + usize::MAX + 1
        }
    }

    /// The bytes held, oldest first.
    pub closed spec fn contents(&self) -> Seq<u8> {
        self.contents@
    }

    /// Counter just past the newest byte.
    pub closed spec fn tail_spec(&self) -> usize {
        self.tail
    }

    /// Bytes written since the last message began.
    pub closed spec fn pending_spec(&self) -> nat {
        self.pending as nat
    }

    /// The ring's bytes sit at their counters modulo `CAP`.
    pub closed spec fn wf(&self) -> bool {
        &&& self.buf@.len() == CAP
        &&& 0 <= self.held() <= CAP
        &&& self.contents@.len() == self.held()
        &&& (self.tail as int) % (CAP as int) == (self.head as int + self.held()) % (CAP as int)
        &&& forall|i: int|
            0 <= i < self.held() ==> #[trigger] self.contents@[i] == self.buf@[(self.head as int + i)
                % (CAP as int)]
    }

    /// An empty log.
    pub fn new() -> (r: Self)
        ensures
            r.wf(),
            r.contents() == Seq::<u8>::empty(),
            r.pending_spec() == 0,
    {
        let mut buf: Vec<u8> = Vec::new();
        while buf.len() < CAP
            invariant
                buf@.len() <= CAP,
            decreases CAP - buf@.len(),
        {
            buf.push(0);
        }
        Log { head: 0, tail: 0, pending: 0, buf, contents: Ghost(Seq::empty()) }
    }

    /// Position in the ring of counter `n`.
    pub fn mask(n: usize) -> (r: usize)
        ensures
            r as int == n as int % (CAP as int),
    {
        assert(n & 8191usize == n % 8192usize) by (bit_vector);
        n & (CAP - 1)
    }

    /// Appends one byte, dropping the oldest when the ring is full.
    fn push_byte(&mut self, c: u8)
        requires
            old(self).wf(),
        ensures
            final(self).wf(),
            final(self).contents() == if old(self).contents().len() < CAP {
                old(self).contents().push(c)
            } else {
                old(self).contents().drop_first().push(c)
            },
            final(self).pending == old(self).pending,
            final(self).tail == (old(self).tail as int + 1) % (usize::MAX as int + 1),
    {
        proof {
            lemma_word_multiple();
        }
        let ghost h0 = self.head as int;
        let ghost d0 = self.held();
        if self.tail.wrapping_sub(self.head) == CAP {
            self.head = self.head.wrapping_add(1);
            proof {
                let old_contents = self.contents@;
                self.contents@ = old_contents.drop_first();
                assert forall|i: int| 0 <= i < self.held() implies #[trigger] self.contents@[i]
                    == self.buf@[(self.head as int + i) % (CAP as int)] by {
                    assert(old_contents[i + 1] == self.buf@[(h0 + i + 1) % (CAP as int)]);
                    if h0 == usize::MAX {
                        assert((h0 + i + 1) % (CAP as int) == (i as int) % (CAP as int)) by {
                            vstd::arithmetic::div_mod::lemma_mod_add_multiples_vanish(i, CAP as int);
                            vstd::arithmetic::div_mod::lemma_add_mod_noop(usize::MAX as int + 1, i, CAP as int);
                        }
                    }
                }
                if h0 == usize::MAX {
                    vstd::arithmetic::div_mod::lemma_add_mod_noop(usize::MAX as int + 1, d0 - 1, CAP as int);
                }
            }
        }
        let ghost h1 = self.head as int;
        let ghost d1 = self.held();
        let ghost before = self.contents@;
        let pos = Log::mask(self.tail);
        self.buf.set(pos, c);
        self.tail = self.tail.wrapping_add(1);
        proof {
            self.contents@ = before.push(c);
            assert(self.held() == d1 + 1);
            assert forall|i: int| 0 <= i < self.held() implies #[trigger] self.contents@[i]
                == self.buf@[(self.head as int + i) % (CAP as int)] by {
                if i < d1 {
                    assert(before[i] == self.contents@[i]);
                    lemma_distinct_residues(h1, i, d1, CAP as int);
                }
            }
        }
    }
}


/// Distance from counter `a` forward to counter `b`, modulo the word.
pub open spec fn dist(a: usize, b: usize) -> int {
    if b >= a {
        b - a
    } else {
        b - a + usize::MAX + 1
    }
}

/// Two counters a distance apart sit that distance apart in the ring.
proof fn lemma_dist_mod(a: usize, b: usize)
    ensures
        (a as int + dist(a, b)) % (CAP as int) == (b as int) % (CAP as int),
{
    lemma_word_multiple();
    if b < a {
        vstd::arithmetic::div_mod::lemma_add_mod_noop(b as int, usize::MAX as int + 1, CAP as int);
        vstd::arithmetic::div_mod::lemma_mod_self_0(CAP as int);
        assert((b as int + (usize::MAX as int + 1)) % (CAP as int) == (b as int) % (CAP as int)) by {
            vstd::arithmetic::div_mod::lemma_small_mod(((b as int) % (CAP as int)) as nat, CAP as nat);
        }
    }
}

/// Equal places in the ring stay equal when both move forward alike.
proof fn lemma_mod_shift(a: int, b: int, i: int, m: int)
    requires
        m > 0,
        a % m == b % m,
    ensures
        (a + i) % m == (b + i) % m,
{
    vstd::arithmetic::div_mod::lemma_add_mod_noop(a, i, m);
    vstd::arithmetic::div_mod::lemma_add_mod_noop(b, i, m);
}

impl Log {
    /// Appends `bytes`, keeping only the last `CAP` bytes written.
    pub fn write_str(&mut self, bytes: &[u8])
        requires
            old(self).wf(),
            old(self).pending_spec() + bytes@.len() <= usize::MAX,
        ensures
            final(self).wf(),
            final(self).contents() == last_cap(old(self).contents() + bytes@),
            final(self).pending_spec() == old(self).pending_spec() + bytes@.len(),
            final(self).tail_spec() == (old(self).tail_spec() as int + bytes@.len()) % (usize::MAX as int + 1),
    {
        let mut j: usize = 0;
        assert(old(self).contents() + bytes@.subrange(0, 0) =~= old(self).contents());
        proof {
            vstd::arithmetic::div_mod::lemma_small_mod(self.tail as nat, (usize::MAX as int + 1) as nat);
        }
        while j < bytes.len()
            invariant
                self.wf(),
                0 <= j <= bytes@.len(),
                self.contents() == last_cap(old(self).contents() + bytes@.subrange(0, j as int)),
                self.pending == old(self).pending,
                self.tail == (old(self).tail as int + j) % (usize::MAX as int + 1),
            decreases bytes@.len() - j,
        {
            let ghost t0 = self.tail as int;
            proof {
                lemma_last_cap_push(old(self).contents() + bytes@.subrange(0, j as int), bytes@[j as int]);
                assert(old(self).contents() + bytes@.subrange(0, j + 1) =~= (old(self).contents()
                    + bytes@.subrange(0, j as int)).push(bytes@[j as int]));
            }
            self.push_byte(bytes[j]);
            proof {
                vstd::arithmetic::div_mod::lemma_add_mod_noop(old(self).tail as int + j, 1, usize::MAX as int + 1);
                vstd::arithmetic::div_mod::lemma_small_mod(1, (usize::MAX as int + 1) as nat);
                vstd::arithmetic::div_mod::lemma_mod_twice(old(self).tail as int + j, usize::MAX as int + 1);
                vstd::arithmetic::div_mod::lemma_small_mod(t0 as nat, (usize::MAX as int + 1) as nat);
            }
            j = j + 1;
        }
        assert(bytes@.subrange(0, bytes@.len() as int) =~= bytes@);
        self.pending = self.pending + bytes.len();
    }

    /// The held bytes from counter `head` to counter `tail` (the newest),
    /// as the ring stores them: one piece, or two when they wrap around.
    pub fn span(&self, head: usize, tail: usize) -> (r: (&[u8], &[u8]))
        requires
            self.wf(),
            tail == self.tail_spec(),
            0 < dist(head, tail) <= self.contents().len(),
        ensures
            r.0@ + r.1@ == self.contents().subrange(
                self.contents().len() - dist(head, tail),
                self.contents().len() as int,
            ),
            r.1@.len() == if (head as int) % (CAP as int) < (tail as int) % (CAP as int) {
                0
            } else {
                (tail as int) % (CAP as int)
            },
    {
        let ghost k = dist(head, tail);
        let ghost n = self.held();
        let ghost start = self.head as int + n - k;
        let ghost m = CAP as int;
        proof {
            lemma_dist_mod(head, tail);
            lemma_dist_mod(self.head, self.tail);
            // head + k == tail == self.head + n  (mod CAP), so head == start (mod CAP)
            vstd::arithmetic::div_mod::lemma_add_mod_noop(head as int, k, m);
            vstd::arithmetic::div_mod::lemma_add_mod_noop(start, k, m);
            assert((head as int + k) % m == (start + k) % m);
            assert(head as int % m == start % m) by {
                lemma_mod_cancel(head as int, start, k, m);
            }
        }
        let h = Log::mask(head);
        let t = Log::mask(tail);
        let ghost expect = self.contents@.subrange(n - k, n);
        if h < t {
            let a = &self.buf[h..t];
            let b: &[u8] = &[];
            proof {
                assert(k == t - h) by {
                    lemma_mod_shift(head as int, h as int, k, m);
                    vstd::arithmetic::div_mod::lemma_small_mod(h as nat, m as nat);
                    if k < m {
                        lemma_window(h as int, k, t as int, m);
                    } else {
                        vstd::arithmetic::div_mod::lemma_mod_add_multiples_vanish(h as int, m);
                    }
                }
                assert forall|i: int| 0 <= i < k implies #[trigger] (a@ + b@)[i] == expect[i] by {
                    assert(expect[i] == self.contents@[n - k + i]);
                    assert(self.contents@[n - k + i] == self.buf@[(self.head as int + n - k + i) % m]);
                    lemma_mod_shift(start, h as int, i, m);
                    vstd::arithmetic::div_mod::lemma_small_mod((h + i) as nat, m as nat);
                }
                assert(a@ + b@ =~= expect);
            }
            (a, b)
        } else {
            let a = &self.buf[h..CAP];
            let b = &self.buf[0..t];
            proof {
                assert(k == m - h + t) by {
                    lemma_mod_shift(head as int, h as int, k, m);
                    vstd::arithmetic::div_mod::lemma_small_mod(h as nat, m as nat);
                    lemma_window(h as int, k, t as int, m);
                }
                assert forall|i: int| 0 <= i < k implies #[trigger] (a@ + b@)[i] == expect[i] by {
                    assert(expect[i] == self.contents@[n - k + i]);
                    assert(self.contents@[n - k + i] == self.buf@[(self.head as int + n - k + i) % m]);
                    lemma_mod_shift(start, h as int, i, m);
                    if h + i < m {
                        vstd::arithmetic::div_mod::lemma_small_mod((h + i) as nat, m as nat);
                    } else {
                        vstd::arithmetic::div_mod::lemma_fundamental_div_mod_converse(h + i, m, 1, h + i - m);
                    }
                }
                assert(a@ + b@ =~= expect);
            }
            (a, b)
        }
    }
}

/// Subtracting the same amount keeps places in the ring equal.
proof fn lemma_mod_cancel(a: int, b: int, k: int, m: int)
    requires
        m > 0,
        (a + k) % m == (b + k) % m,
    ensures
        a % m == b % m,
{
    lemma_mod_shift(a + k, b + k, -k, m);
    assert(a + k + -k == a);
    assert(b + k + -k == b);
}

/// A window of `k` places from place `h` ends at place `t`.
proof fn lemma_window(h: int, k: int, t: int, m: int)
    requires
        0 <= h < m,
        0 <= t < m,
        0 < k <= m,
        (h + k) % m == t,
    ensures
        h < t ==> k == t - h,
        h >= t ==> k == m - h + t,
{
    if h + k < m {
        vstd::arithmetic::div_mod::lemma_small_mod((h + k) as nat, m as nat);
    } else {
        vstd::arithmetic::div_mod::lemma_fundamental_div_mod_converse(h + k, m, 1, h + k - m);
    }
}


/// The log and the consoles that show it.
pub struct Logger {
    log: Log,
    consoles: List,
}

impl Logger {
    /// The log is consistent and the console list is usable.
    pub closed spec fn wf(&self) -> bool {
        &&& self.log.wf()
        &&& self.consoles.wf()
    }

    /// Whether the console list has been set up.
    pub closed spec fn ready(&self) -> bool {
        self.consoles.is_init_spec()
    }

    /// The bytes the log holds, oldest first.
    pub closed spec fn contents(&self) -> Seq<u8> {
        self.log.contents()
    }

    /// Handles of the registered consoles, newest first.
    pub closed spec fn consoles(&self) -> Seq<usize> {
        self.consoles@
    }

    /// The log.
    pub closed spec fn log_spec(&self) -> Log {
        self.log
    }

    /// An empty log with no console list set up yet.
    pub fn new() -> (r: Self)
        ensures
            r.wf(),
            !r.ready(),
            r.contents() == Seq::<u8>::empty(),
            r.consoles() == Seq::<usize>::empty(),
    {
        Logger { log: Log::new(), consoles: List::new() }
    }

    /// The log ring.
    pub fn log(&self) -> (r: &Log)
        ensures
            *r == self.log_spec(),
    {
        &self.log
    }

    /// The registered consoles.
    pub fn console_list(&self) -> (r: &List)
        requires
            self.wf(),
        ensures
            r@ == self.consoles(),
            r.wf(),
            r.is_init_spec() == self.ready(),
    {
        &self.consoles
    }
}

/// Sets up the console list.
pub fn init(logger: &mut Logger)
    requires
        old(logger).wf(),
        !old(logger).ready(),
    ensures
        final(logger).wf(),
        final(logger).ready(),
        final(logger).consoles() == Seq::<usize>::empty(),
        final(logger).contents() == old(logger).contents(),
{
    logger.consoles.init();
}

/// Registers console `console`: it becomes the first console, and the
/// result is the span of the log it is to be shown first (`None` when the
/// log is empty), after being cleared.
pub fn register(logger: &mut Logger, console: usize) -> (r: Option<(usize, usize)>)
    requires
        old(logger).wf(),
        old(logger).ready(),
        1 <= console < usize::MAX,
        !old(logger).consoles().contains(console),
    ensures
        final(logger).wf(),
        final(logger).ready(),
        final(logger).consoles() == seq![console] + old(logger).consoles(),
        final(logger).log_spec() == old(logger).log_spec(),
        match r {
            None => old(logger).contents().len() == 0,
            Some((h, t)) => t == old(logger).log_spec().tail_spec() && dist(h, t)
                == old(logger).contents().len() && old(logger).contents().len() > 0,
        },
{
    let head = logger.log.head;
    let tail = logger.log.tail;
    let r = if head != tail {
        Some((head, tail))
    } else {
        None
    };
    logger.consoles.push_front(console);
    r
}

/// The consoles to clear, in order.
pub fn clear(logger: &Logger) -> (r: Vec<usize>)
    requires
        logger.wf(),
        logger.ready(),
    ensures
        r@ == logger.consoles(),
{
    let mut out: Vec<usize> = Vec::new();
    let mut it = logger.consoles.iter();
    loop
        invariant
            it.items() == logger.consoles(),
            0 <= it.pos() <= it.items().len(),
            out@ == it.items().subrange(0, it.pos()),
        decreases it.items().len() - it.pos(),
    {
        let ghost p = it.pos();
        match it.next() {
            None => {
                assert(it.items().subrange(0, it.items().len() as int) =~= it.items());
                return out;
            },
            Some(c) => {
                out.push(c);
                assert(out@ =~= it.items().subrange(0, p + 1));
            },
        }
    }
}

/// Appends a message (and a newline when asked) to the log. The result is
/// the span of the log that every console is to be shown: the message
/// itself, or its last `CAP` bytes when it is longer than the ring;
/// `None` when the message is empty.
pub fn write(logger: &mut Logger, msg: &[u8], newline: bool) -> (r: Option<(usize, usize)>)
    requires
        old(logger).wf(),
        newline ==> msg@.len() < usize::MAX,
    ensures
        final(logger).wf(),
        final(logger).ready() == old(logger).ready(),
        final(logger).consoles() == old(logger).consoles(),
        final(logger).contents() == last_cap(old(logger).contents() + message(msg@, newline)),
        match r {
            None => message(msg@, newline).len() == 0,
            Some((h, t)) => t == final(logger).log_spec().tail_spec() && 0 < dist(h, t)
                <= final(logger).contents().len() && final(logger).contents().subrange(
                final(logger).contents().len() - dist(h, t),
                final(logger).contents().len() as int,
            ) == last_cap(message(msg@, newline)),
        },
{
    let len = msg.len();
    logger.log.pending = 0;
    let mut head = logger.log.tail;
    let ghost t0 = logger.log.tail as int;
    let ghost c0 = logger.log.contents();
    logger.log.write_str(msg);
    if newline {
        let nl: &[u8] = &[10u8];
        logger.log.write_str(nl);
        proof {
            assert(c0 + message(msg@, newline) =~= (c0 + msg@) + nl@);
            lemma_last_cap_append(c0 + msg@, nl@);
            vstd::arithmetic::div_mod::lemma_add_mod_noop(t0 + msg@.len(), 1, usize::MAX as int + 1);
            vstd::arithmetic::div_mod::lemma_mod_twice(t0 + msg@.len(), usize::MAX as int + 1);
            vstd::arithmetic::div_mod::lemma_small_mod(1, (usize::MAX as int + 1) as nat);
            vstd::arithmetic::div_mod::lemma_add_mod_noop(t0 + msg@.len(), 1, usize::MAX as int + 1);
        }
    } else {
        assert(c0 + message(msg@, newline) =~= c0 + msg@);
    }
    let ghost m = message(msg@, newline);
    assert(logger.log.pending as int == m.len());
    if logger.log.pending == 0 {
        return None;
    }
    if logger.log.pending > CAP {
        head = logger.log.head;
        proof {
            assert(logger.log.contents().len() == CAP);
            assert(last_cap(m) =~= last_cap(c0 + m));
            assert(logger.log.contents().subrange(0, CAP as int) =~= logger.log.contents());
        }
    } else {
        proof {
            lemma_tail_advance(t0, m.len() as int, logger.log.tail as int);
            assert(dist(head, logger.log.tail) == m.len());
            lemma_last_cap_suffix(c0, m);
        }
    }
    Some((head, logger.log.tail))
}

/// A message as written to the log: its bytes, and a newline when asked.
pub open spec fn message(msg: Seq<u8>, newline: bool) -> Seq<u8> {
    if newline {
        msg.push(10u8)
    } else {
        msg
    }
}

/// Keeping the last `CAP` bytes of a longer text is the same as keeping
/// the last `CAP` bytes of what came last.
proof fn lemma_last_cap_append(a: Seq<u8>, b: Seq<u8>)
    ensures
        last_cap(a + b) == last_cap(last_cap(a) + b),
{
    assert(last_cap(a + b) =~= last_cap(last_cap(a) + b));
}

/// A text of at most `CAP` bytes is the tail of what keeping the last `CAP`
/// bytes of any text ending with it gives.
proof fn lemma_last_cap_suffix(a: Seq<u8>, m: Seq<u8>)
    requires
        m.len() <= CAP,
    ensures
        last_cap(a + m).len() >= m.len(),
        last_cap(a + m).subrange(last_cap(a + m).len() - m.len(), last_cap(a + m).len() as int) == m,
        last_cap(m) == m,
{
    assert(last_cap(a + m).subrange(last_cap(a + m).len() - m.len(), last_cap(a + m).len() as int) =~= m);
}

/// A counter advanced by less than a word is that far ahead.
proof fn lemma_tail_advance(t0: int, k: int, t1: int)
    requires
        0 <= t0 <= usize::MAX,
        0 <= k <= CAP,
        t1 == (t0 + k) % (usize::MAX as int + 1),
    ensures
        dist(t0 as usize, t1 as usize) == k,
{
    assert(usize::MAX == 0xffff_ffff || usize::MAX == 0xffff_ffff_ffff_ffff);
    if t0 + k <= usize::MAX {
        vstd::arithmetic::div_mod::lemma_small_mod((t0 + k) as nat, (usize::MAX as int + 1) as nat);
    } else {
        vstd::arithmetic::div_mod::lemma_fundamental_div_mod_converse(t0 + k, usize::MAX as int + 1, 1, t0 + k - usize::MAX - 1);
    }
}


/// The log never holds more than `CAP` bytes.
pub proof fn law_log_bounded(log: &Log)
    requires
        log.wf(),
    ensures
        log.contents().len() <= CAP,
{
}

/// Writing `a` and then `b` leaves the log as writing `a + b` at once
/// does: the last `CAP` bytes of all that was written.
pub proof fn law_write_in_pieces(contents: Seq<u8>, a: Seq<u8>, b: Seq<u8>)
    ensures
        last_cap(last_cap(contents + a) + b) == last_cap(contents + (a + b)),
{
    lemma_last_cap_append(contents + a, b);
    assert((contents + a) + b =~= contents + (a + b));
}

/// A message of at most `CAP` bytes is, once written, what the log ends
/// with, whatever it held before.
pub proof fn law_latest_message_kept(contents: Seq<u8>, msg: Seq<u8>)
    requires
        msg.len() <= CAP,
    ensures
        last_cap(contents + msg).len() >= msg.len(),
        last_cap(contents + msg).subrange(
            last_cap(contents + msg).len() - msg.len(),
            last_cap(contents + msg).len() as int,
        ) == msg,
{
    lemma_last_cap_suffix(contents, msg);
}

} // verus!
