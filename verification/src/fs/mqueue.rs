//! Message queues: named queues of messages with priorities. The message that
//! leaves a queue first is the oldest of those with the highest priority.

use crate::bytes::{copy_range, cut_at_zero, least, lemma_cut_at, same_bytes};
use crate::errno::{
    EAGAIN, EBADF, EEXIST, EINVAL, EMSGSIZE, ENOENT, ENOSPC, ETIMEDOUT,
};
use vstd::prelude::*;

verus! {

/// How many queues there can be.
pub const MAX_MQS: usize = 8;
/// The longest name, with the zero byte that ends it.
pub const MAX_NAME: usize = 64;
/// How many messages a queue can hold.
pub const MAX_MSGS: usize = 16;
/// How many bytes a message can have.
pub const MAX_MSG_SIZE: usize = 1024;
/// What the descriptor of a queue is counted from.
pub const MQ_MAGIC: i64 = 0x4D51_0000;

pub const O_CREAT: i32 = 0o100;
pub const O_EXCL: i32 = 0o200;
pub const O_NONBLOCK: i32 = 0o4000;

/// Clock ticks in a second.
pub const HZ: u64 = 100;

/// A message.
pub struct Msg {
    pub prio: u32,
    pub data: Vec<u8>,
}

/// A queue; its messages stand in the order in which they came.
pub struct Mq {
    pub used: bool,
    pub name: Vec<u8>,
    pub maxmsg: usize,
    pub msgsize: usize,
    pub nonblock: bool,
    pub msgs: Vec<Msg>,
}

/// The attributes of a queue, as they are asked for and reported.
#[derive(Debug, Clone, Copy, PartialEq, Eq, Structural)]
pub struct MqAttr {
    pub flags: u64,
    pub maxmsg: i64,
    pub msgsize: i64,
    pub curmsgs: i64,
}

/// All queues.
pub struct MqTable {
    pub queues: Vec<Mq>,
}

/// What became of an attempt to send.
pub enum Sent {
    Done,
    Failed(i32),
    /// The queue is full: try again, with that many ticks left.
    Wait(Option<u64>),
}

/// What became of an attempt to receive.
pub enum Received {
    Message(Msg),
    Failed(i32),
    /// The queue is empty: try again, with that many ticks left.
    Wait(Option<u64>),
}

#[verifier::ext_equal]
pub struct Message {
    pub prio: u32,
    pub data: Seq<u8>,
}

#[verifier::ext_equal]
pub struct Queue {
    pub used: bool,
    pub name: Seq<u8>,
    pub maxmsg: usize,
    pub msgsize: usize,
    pub nonblock: bool,
    pub msgs: Seq<Message>,
}

impl Msg {
    pub open spec fn view(&self) -> Message {
        Message { prio: self.prio, data: self.data@ }
    }
}

/// The messages.
pub open spec fn messages(s: Seq<Msg>) -> Seq<Message> {
    Seq::new(s.len(), |i: int| s[i]@)
}

impl Mq {
    pub open spec fn view(&self) -> Queue {
        Queue {
            used: self.used,
            name: self.name@,
            maxmsg: self.maxmsg,
            msgsize: self.msgsize,
            nonblock: self.nonblock,
            msgs: messages(self.msgs@),
        }
    }
}

/// A slot without a queue.
pub open spec fn no_queue() -> Queue {
    Queue {
        used: false,
        name: Seq::empty(),
        maxmsg: 0,
        msgsize: 0,
        nonblock: false,
        msgs: Seq::empty(),
    }
}

impl Queue {
    /// The queue keeps its own limits, and these keep those of all queues.
    pub open spec fn ok(self) -> bool {
        &&& self.maxmsg <= MAX_MSGS
        &&& self.msgsize <= MAX_MSG_SIZE
        &&& self.used ==> self.maxmsg > 0 && self.msgsize > 0
        &&& self.msgs.len() <= self.maxmsg
        &&& forall|i: int| 0 <= i < self.msgs.len() ==> (#[trigger] self.msgs[i]).data.len() <= self.msgsize
    }
}

/// The name that the bytes give: a slash and at least one byte more, and
/// short enough.
pub open spec fn queue_name(s: Seq<u8>) -> Option<Seq<u8>> {
    let n = cut_at_zero(s);
    if 2 <= n.len() < MAX_NAME && n[0] == 0x2F {
        Some(n)
    } else {
        None
    }
}

/// Whether slot `i` holds the queue with that name.
pub open spec fn is_named(s: Seq<Queue>, name: Seq<u8>, i: int) -> bool {
    0 <= i < s.len() && s[i].used && s[i].name == name
}

/// The first slot at `k` or after it that holds the queue with that name, or
/// the number of slots.
pub open spec fn named_from(s: Seq<Queue>, name: Seq<u8>, k: int) -> int
    decreases s.len() - k,
{
    if k >= s.len() {
        s.len() as int
    } else if is_named(s, name, k) {
        k
    } else {
        named_from(s, name, k + 1)
    }
}

/// The first free slot at `k` or after it, or the number of slots.
pub open spec fn free_from(s: Seq<Queue>, k: int) -> int
    decreases s.len() - k,
{
    if k >= s.len() {
        s.len() as int
    } else if !s[k].used {
        k
    } else {
        free_from(s, k + 1)
    }
}

/// A new queue; without attributes it has the greatest limits.
pub open spec fn fresh_queue(name: Seq<u8>, attr: Option<MqAttr>) -> Queue {
    Queue {
        used: true,
        name,
        maxmsg: match attr {
            Some(a) => least(a.maxmsg as int, MAX_MSGS as int) as usize,
            None => MAX_MSGS,
        },
        msgsize: match attr {
            Some(a) => least(a.msgsize as int, MAX_MSG_SIZE as int) as usize,
            None => MAX_MSG_SIZE,
        },
        nonblock: false,
        msgs: Seq::empty(),
    }
}

/// What opening a queue gives: the slot of the queue with that name, which is
/// made where there is none and it may be.
pub open spec fn opened(s: Seq<Queue>, bytes: Seq<u8>, oflag: i32, attr: Option<MqAttr>) -> Result<int, i32> {
    match queue_name(bytes) {
        None => Err(ENOENT),
        Some(name) => if attr is Some && (attr->0.maxmsg <= 0 || attr->0.msgsize <= 0) {
            Err(EINVAL)
        } else if named_from(s, name, 0) < s.len() {
            if oflag & (O_CREAT | O_EXCL) == (O_CREAT | O_EXCL) {
                Err(EEXIST)
            } else {
                Ok(named_from(s, name, 0))
            }
        } else if oflag & O_CREAT == 0 {
            Err(ENOENT)
        } else if free_from(s, 0) < s.len() {
            Ok(free_from(s, 0))
        } else {
            Err(ENOSPC)
        },
    }
}

/// Slot `i` once it is opened: the queue that was there, or a new one.
pub open spec fn opened_queue(q: Queue, name: Seq<u8>, oflag: i32, attr: Option<MqAttr>) -> Queue {
    let r = if q.used {
        q
    } else {
        fresh_queue(name, attr)
    };
    if oflag & O_NONBLOCK != 0 {
        Queue { nonblock: true, ..r }
    } else {
        r
    }
}

/// The slot that a descriptor stands for.
pub open spec fn slot_of(s: Seq<Queue>, mqd: i64) -> Option<int> {
    let i = mqd - MQ_MAGIC;
    if 0 <= i < s.len() && s[i].used {
        Some(i)
    } else {
        None
    }
}

/// Whether message `i` is next: none has a higher priority and none that came
/// before it has the same.
pub open spec fn is_next(m: Seq<Message>, i: int) -> bool {
    &&& 0 <= i < m.len()
    &&& forall|j: int| 0 <= j < m.len() ==> (#[trigger] m[j]).prio <= m[i].prio
    &&& forall|j: int| 0 <= j < i ==> (#[trigger] m[j]).prio < m[i].prio
}

/// What waiting comes to, with `remaining` ticks left: the error, or the ticks
/// that are left then.
pub open spec fn waited(nonblock: bool, remaining: Option<u64>) -> Result<Option<u64>, i32> {
    if nonblock {
        Err(EAGAIN)
    } else {
        match remaining {
            None => Ok(None),
            Some(t) => if t == 0 {
                Err(ETIMEDOUT)
            } else {
                Ok(Some((t - 1) as u64))
            },
        }
    }
}

/// What sending comes to.
pub open spec fn sent(q: Queue, len: int, remaining: Option<u64>) -> Result<(), Result<Option<u64>, i32>> {
    if len > q.msgsize {
        Err(Err(EMSGSIZE))
    } else if q.msgs.len() < q.maxmsg {
        Ok(())
    } else {
        Err(waited(q.nonblock, remaining))
    }
}

/// How an attempt to send ended.
pub open spec fn sent_as(r: Sent, what: Result<(), Result<Option<u64>, i32>>) -> bool {
    match what {
        Ok(_) => r is Done,
        Err(Ok(t)) => r == Sent::Wait(t),
        Err(Err(e)) => r == Sent::Failed(e),
    }
}

/// The queue with that message behind the others.
pub open spec fn with_message(q: Queue, m: Message) -> Queue {
    Queue { msgs: q.msgs.push(m), ..q }
}

/// The queue without message `i`.
pub open spec fn without_message(q: Queue, i: int) -> Queue {
    Queue { msgs: q.msgs.remove(i), ..q }
}

/// How an attempt to receive into `len` bytes ended, with `i` the next message.
pub open spec fn received_as(q: Queue, q2: Queue, len: int, remaining: Option<u64>, r: Received) -> bool {
    if q.msgs.len() == 0 {
        &&& q2 == q
        &&& match waited(q.nonblock, remaining) {
            Ok(t) => r == Received::Wait(t),
            Err(e) => r == Received::Failed(e),
        }
    } else {
        exists|i: int| #[trigger]
            is_next(q.msgs, i) && if len < q.msgs[i].data.len() {
                q2 == q && r == Received::Failed(EMSGSIZE)
            } else {
                q2 == without_message(q, i) && r is Message && r->Message_0@ == q.msgs[i]
            }
    }
}

/// There is always a next message, and only one.
pub proof fn lemma_one_next(m: Seq<Message>, i: int, j: int)
    requires
        is_next(m, i),
        is_next(m, j),
    ensures
        i == j,
{
    if i < j {
        assert(m[i].prio < m[j].prio);
    } else if j < i {
        assert(m[j].prio < m[i].prio);
    }
}

/// A message does not leave before one with a higher priority, nor before an
/// older one with the same.
pub proof fn lemma_order(m: Seq<Message>, i: int, j: int)
    requires
        0 <= i < m.len(),
        0 <= j < m.len(),
        m[i].prio > m[j].prio || m[i].prio == m[j].prio && i < j,
    ensures
        !is_next(m, j),
{
}

/// A message that is sent to a queue where none has its priority or a higher
/// one comes out next, and the queue is then as it was.
pub proof fn lemma_send_then_receive(q: Queue, m: Message)
    requires
        forall|i: int| 0 <= i < q.msgs.len() ==> (#[trigger] q.msgs[i]).prio < m.prio,
    ensures
        is_next(with_message(q, m).msgs, q.msgs.len() as int),
        with_message(q, m).msgs[q.msgs.len() as int] == m,
        without_message(with_message(q, m), q.msgs.len() as int) == q,
{
    assert(q.msgs.push(m).remove(q.msgs.len() as int) =~= q.msgs);
}

/// The bytes of a name, if they are one.
fn read_name(bytes: &[u8]) -> (r: Option<Vec<u8>>)
    ensures
        match r {
            Some(n) => queue_name(bytes@) == Some(n@),
            None => queue_name(bytes@) is None,
        },
{
    let mut n: usize = 0;
    while n < bytes.len() && n < MAX_NAME && bytes[n] != 0
        invariant
            n <= bytes@.len(),
            n <= MAX_NAME,
            forall|i: int| 0 <= i < n ==> bytes@[i] != 0,
        decreases bytes@.len() - n,
    {
        n = n + 1;
    }
    proof {
        lemma_cut_at(bytes@, n as int);
        assert(bytes@.take(n as int) =~= bytes@.subrange(0, n as int));
        if n == bytes@.len() {
            assert(bytes@.subrange(0, n as int) =~= bytes@);
        }
    }
    if n < MAX_NAME && n >= 2 && bytes[0] == 0x2F {
        Some(copy_range(bytes, 0, n))
    } else {
        None
    }
}

/// How many ticks are left until `ts`, a second and nanoseconds, at second
/// `now`; a time that is no time has passed.
pub open spec fn ticks_left(ts: Option<(u64, u64)>, now: u64) -> Option<u64> {
    match ts {
        None => None,
        Some((sec, nsec)) => if nsec >= 1_000_000_000 || sec <= now {
            Some(0)
        } else {
            Some(least((sec - now) * HZ, u64::MAX as int) as u64)
        },
    }
}

pub fn abs_to_remaining_ticks(ts: Option<(u64, u64)>, now: u64) -> (r: Option<u64>)
    ensures
        r == ticks_left(ts, now),
{
    match ts {
        None => None,
        Some((sec, nsec)) => {
            if nsec >= 1_000_000_000 || sec <= now {
                Some(0)
            } else {
                let left: u64 = sec - now;
                if left > u64::MAX / HZ {
                    Some(u64::MAX)
                } else {
                    Some(left * HZ)
                }
            }
        },
    }
}

/// The ticks that are left after one more round, or why there is none.
fn wait(nonblock: bool, remaining: Option<u64>) -> (r: Result<Option<u64>, i32>)
    ensures
        r == waited(nonblock, remaining),
{
    if nonblock {
        return Err(EAGAIN);
    }
    match remaining {
        None => Ok(None),
        Some(t) => {
            if t == 0 {
                Err(ETIMEDOUT)
            } else {
                Ok(Some(t - 1))
            }
        },
    }
}

fn empty_queue() -> (r: Mq)
    ensures
        r@ == no_queue(),
{
    let r = Mq {
        used: false,
        name: Vec::new(),
        maxmsg: 0,
        msgsize: 0,
        nonblock: false,
        msgs: Vec::new(),
    };
    assert(messages(r.msgs@) =~= Seq::<Message>::empty());
    r
}

impl MqTable {
    pub open spec fn view(&self) -> Seq<Queue> {
        Seq::new(self.queues@.len(), |i: int| self.queues@[i]@)
    }

    /// There are so many slots, each queue keeps its limits, and no two have
    /// the same name.
    pub open spec fn wf(&self) -> bool {
        &&& self@.len() == MAX_MQS
        &&& forall|i: int| 0 <= i < MAX_MQS ==> (#[trigger] self@[i]).ok()
        &&& forall|i: int, j: int|
            0 <= i < j < MAX_MQS && (#[trigger] self@[i]).used && (#[trigger] self@[j]).used
                ==> self@[i].name != self@[j].name
    }

    /// No queues.
    pub fn new() -> (r: MqTable)
        ensures
            r.wf(),
            forall|i: int| 0 <= i < MAX_MQS ==> #[trigger] r@[i] == no_queue(),
    {
        let mut queues: Vec<Mq> = Vec::new();
        for i in 0..MAX_MQS
            invariant
                queues@.len() == i,
                forall|j: int| 0 <= j < i ==> (#[trigger] queues@[j])@ == no_queue(),
        {
            queues.push(empty_queue());
        }
        MqTable { queues }
    }

    /// Replaces the queue of a slot.
    fn put(&mut self, i: usize, q: Mq)
        requires
            i < old(self)@.len(),
        ensures
            final(self)@ == old(self)@.update(i as int, q@),
    {
        self.queues.set(i, q);
        assert(self@ =~= old(self)@.update(i as int, q@));
    }

    /// The slot of the queue with that name.
    fn find_by_name(&self, name: &Vec<u8>) -> (r: Option<usize>)
        ensures
            match r {
                Some(i) => i < self@.len() && named_from(self@, name@, 0) == i && is_named(
                    self@,
                    name@,
                    i as int,
                ),
                None => named_from(self@, name@, 0) == self@.len(),
            },
    {
        let n: usize = self.queues.len();
        for i in 0..n
            invariant
                n == self@.len(),
                named_from(self@, name@, 0) == named_from(self@, name@, i as int),
        {
            assert(self@[i as int] == self.queues@[i as int]@);
            if self.queues[i].used && same_bytes(&self.queues[i].name, name) {
                return Some(i);
            }
        }
        None
    }

    /// The first free slot.
    fn find_free(&self) -> (r: Option<usize>)
        ensures
            match r {
                Some(i) => i < self@.len() && free_from(self@, 0) == i && !self@[i as int].used,
                None => free_from(self@, 0) == self@.len(),
            },
    {
        let n: usize = self.queues.len();
        for i in 0..n
            invariant
                n == self@.len(),
                free_from(self@, 0) == free_from(self@, i as int),
        {
            assert(self@[i as int] == self.queues@[i as int]@);
            if !self.queues[i].used {
                return Some(i);
            }
        }
        None
    }

    /// The slot that a descriptor stands for.
    pub fn decode(&self, mqd: i64) -> (r: Option<usize>)
        requires
            self.wf(),
        ensures
            match r {
                Some(i) => slot_of(self@, mqd) == Some(i as int),
                None => slot_of(self@, mqd) is None,
            },
    {
        if mqd < MQ_MAGIC || mqd >= MQ_MAGIC + MAX_MQS as i64 {
            return None;
        }
        let i: usize = (mqd - MQ_MAGIC) as usize;
        assert(self@[i as int] == self.queues@[i as int]@);
        if self.queues[i].used {
            Some(i)
        } else {
            None
        }
    }

    /// Opens the queue with that name and gives its descriptor.
    pub fn sys_mq_open(&mut self, bytes: &[u8], oflag: i32, attr: Option<MqAttr>) -> (r: i64)
        requires
            old(self).wf(),
        ensures
            final(self).wf(),
            match opened(old(self)@, bytes@, oflag, attr) {
                Err(e) => r == -e && final(self)@ == old(self)@,
                Ok(i) => {
                    &&& r == MQ_MAGIC + i
                    &&& final(self)@ == old(self)@.update(
                        i,
                        opened_queue(old(self)@[i], queue_name(bytes@)->0, oflag, attr),
                    )
                },
            },
    {
        let name: Vec<u8> = match read_name(bytes) {
            Some(n) => n,
            None => {
                return -(ENOENT as i64);
            },
        };
        let mut maxmsg: usize = MAX_MSGS;
        let mut msgsize: usize = MAX_MSG_SIZE;
        if let Some(a) = attr {
            if a.maxmsg <= 0 || a.msgsize <= 0 {
                return -(EINVAL as i64);
            }
            if a.maxmsg < MAX_MSGS as i64 {
                maxmsg = a.maxmsg as usize;
            }
            if a.msgsize < MAX_MSG_SIZE as i64 {
                msgsize = a.msgsize as usize;
            }
        }
        let ghost s0 = self@;
        let ghost name0 = name@;
        let i: usize = match self.find_by_name(&name) {
            Some(i) => {
                if oflag & (O_CREAT | O_EXCL) == (O_CREAT | O_EXCL) {
                    return -(EEXIST as i64);
                }
                i
            },
            None => {
                if oflag & O_CREAT == 0 {
                    return -(ENOENT as i64);
                }
                match self.find_free() {
                    None => {
                        return -(ENOSPC as i64);
                    },
                    Some(i) => {
                        let msgs: Vec<Msg> = Vec::new();
                        let q = Mq { used: true, name, maxmsg, msgsize, nonblock: false, msgs };
                        assert(messages(msgs@) =~= Seq::<Message>::empty());
                        assert(q@ == fresh_queue(name0, attr));
                        proof {
                            lemma_not_named(s0, name0, 0);
                            assert forall|j: int|
                                0 <= j < s0.len() && (#[trigger] s0[j]).used implies s0[j].name != name0 by {
                                assert(!is_named(s0, name0, j));
                            }
                        }
                        self.put(i, q);
                        assert(self@[i as int].ok());
                        assert(self.wf());
                        i
                    },
                }
            },
        };
        let ghost s1 = self@;
        if oflag & O_NONBLOCK != 0 {
            self.set_nonblock(i, true);
            assert(self@[i as int].ok()) by {
                assert(s1[i as int].ok());
            }
        }
        assert(self@ =~= s0.update(i as int, opened_queue(s0[i as int], name0, oflag, attr)));
        MQ_MAGIC + i as i64
    }

    fn set_nonblock(&mut self, i: usize, on: bool)
        requires
            i < old(self)@.len(),
        ensures
            final(self)@ == old(self)@.update(i as int, (Queue { nonblock: on, ..old(self)@[i as int] })),
    {
        self.queues[i].nonblock = on;
        assert(self@ =~= old(self)@.update(i as int, (Queue { nonblock: on, ..old(self)@[i as int] })));
    }

    /// Removes the queue with that name and all that is in it.
    pub fn sys_mq_unlink(&mut self, bytes: &[u8]) -> (r: i64)
        requires
            old(self).wf(),
        ensures
            final(self).wf(),
            match queue_name(bytes@) {
                Some(name) if named_from(old(self)@, name, 0) < MAX_MQS => {
                    &&& r == 0
                    &&& final(self)@ == old(self)@.update(named_from(old(self)@, name, 0), no_queue())
                },
                _ => r == -ENOENT && final(self)@ == old(self)@,
            },
    {
        let name: Vec<u8> = match read_name(bytes) {
            Some(n) => n,
            None => {
                return -(ENOENT as i64);
            },
        };
        match self.find_by_name(&name) {
            None => -(ENOENT as i64),
            Some(i) => {
                let q = empty_queue();
                self.put(i, q);
                0
            },
        }
    }

    /// One attempt to put a message into slot `i`.
    pub fn send_to(&mut self, i: usize, msg: &[u8], prio: u32, remaining: Option<u64>) -> (r: Sent)
        requires
            old(self).wf(),
            i < MAX_MQS,
        ensures
            final(self).wf(),
            sent_as(r, sent(old(self)@[i as int], msg@.len() as int, remaining)),
            sent(old(self)@[i as int], msg@.len() as int, remaining) is Ok ==> final(self)@ == old(
                self,
            )@.update(
                i as int,
                with_message(old(self)@[i as int], Message { prio, data: msg@ }),
            ),
            sent(old(self)@[i as int], msg@.len() as int, remaining) is Err ==> final(self)@ == old(
                self,
            )@,
    {
        let ghost s0 = self@;
        assert(self@[i as int] == self.queues@[i as int]@);
        assert(self@[i as int].ok());
        if msg.len() > self.queues[i].msgsize {
            return Sent::Failed(EMSGSIZE);
        }
        if self.queues[i].msgs.len() < self.queues[i].maxmsg {
            let m = Msg { prio, data: copy_range(msg, 0, msg.len()) };
            assert(m.data@ =~= msg@);
            let ghost m0 = self.queues@[i as int].msgs@;
            self.queues[i].msgs.push(m);
            assert(messages(self.queues@[i as int].msgs@) =~= messages(m0).push(m@));
            assert(self@ =~= s0.update(i as int, with_message(s0[i as int], m@)));
            return Sent::Done;
        }
        match wait(self.queues[i].nonblock, remaining) {
            Ok(t) => Sent::Wait(t),
            Err(e) => Sent::Failed(e),
        }
    }

    /// One attempt to send a message to the queue of a descriptor.
    pub fn sys_mq_timedsend(&mut self, mqd: i64, msg: Option<&[u8]>, prio: u32, remaining: Option<u64>) -> (r: Sent)
        requires
            old(self).wf(),
        ensures
            final(self).wf(),
            match (slot_of(old(self)@, mqd), msg) {
                (None, _) => r == Sent::Failed(EBADF) && final(self)@ == old(self)@,
                (Some(_), None) => r == Sent::Failed(EINVAL) && final(self)@ == old(self)@,
                (Some(i), Some(m)) => {
                    &&& sent_as(r, sent(old(self)@[i], m@.len() as int, remaining))
                    &&& final(self)@ == if r is Done {
                        old(self)@.update(i, with_message(old(self)@[i], Message { prio, data: m@ }))
                    } else {
                        old(self)@
                    }
                },
            },
    {
        let i: usize = match self.decode(mqd) {
            Some(i) => i,
            None => {
                return Sent::Failed(EBADF);
            },
        };
        match msg {
            None => Sent::Failed(EINVAL),
            Some(m) => self.send_to(i, m, prio, remaining),
        }
    }

    /// The next message of slot `i`.
    fn next_of(&self, i: usize) -> (r: Option<usize>)
        requires
            i < self@.len(),
        ensures
            match r {
                Some(k) => is_next(self@[i as int].msgs, k as int),
                None => self@[i as int].msgs.len() == 0,
            },
    {
        let ghost m = self@[i as int].msgs;
        let n: usize = self.queues[i].msgs.len();
        let mut best: Option<usize> = None;
        for k in 0..n
            invariant
                i < self@.len(),
                m == messages(self.queues@[i as int].msgs@),
                n == m.len(),
                match best {
                    Some(b) => {
                        &&& b < k
                        &&& forall|j: int| 0 <= j < k ==> (#[trigger] m[j]).prio <= m[b as int].prio
                        &&& forall|j: int| 0 <= j < b ==> (#[trigger] m[j]).prio < m[b as int].prio
                    },
                    None => k == 0,
                },
        {
            let prio: u32 = self.queues[i].msgs[k].prio;
            assert(m[k as int].prio == prio);
            let better: bool = match best {
                None => true,
                Some(b) => {
                    assert(m[b as int].prio == self.queues@[i as int].msgs@[b as int].prio);
                    self.queues[i].msgs[b].prio < prio
                },
            };
            if better {
                best = Some(k);
            }
        }
        best
    }

    /// One attempt to take the next message out of slot `i` into `len` bytes.
    pub fn receive_from(&mut self, i: usize, len: usize, remaining: Option<u64>) -> (r: Received)
        requires
            old(self).wf(),
            i < MAX_MQS,
        ensures
            final(self).wf(),
            final(self)@ == old(self)@.update(i as int, final(self)@[i as int]),
            received_as(
                old(self)@[i as int],
                final(self)@[i as int],
                len as int,
                remaining,
                r,
            ),
    {
        let ghost s0 = self@;
        let ghost m0 = self.queues@[i as int].msgs@;
        assert(self@[i as int] == self.queues@[i as int]@);
        assert(self@[i as int].ok());
        match self.next_of(i) {
            None => {
                assert(self@ =~= s0.update(i as int, s0[i as int]));
                match wait(self.queues[i].nonblock, remaining) {
                    Ok(t) => Received::Wait(t),
                    Err(e) => Received::Failed(e),
                }
            },
            Some(k) => {
                assert(is_next(s0[i as int].msgs, k as int));
                assert(m0[k as int]@ == s0[i as int].msgs[k as int]);
                if len < self.queues[i].msgs[k].data.len() {
                    assert(self@ =~= s0.update(i as int, s0[i as int]));
                    return Received::Failed(EMSGSIZE);
                }
                let m = self.queues[i].msgs.remove(k);
                assert(messages(self.queues@[i as int].msgs@) =~= messages(m0).remove(k as int));
                assert(self@[i as int] == without_message(s0[i as int], k as int));
                assert(self@ =~= s0.update(i as int, without_message(s0[i as int], k as int)));
                Received::Message(m)
            },
        }
    }

    /// One attempt to receive a message from the queue of a descriptor into
    /// `len` bytes.
    pub fn sys_mq_timedreceive(&mut self, mqd: i64, len: Option<usize>, remaining: Option<u64>) -> (r: Received)
        requires
            old(self).wf(),
        ensures
            final(self).wf(),
            match (slot_of(old(self)@, mqd), len) {
                (None, _) => r == Received::Failed(EBADF) && final(self)@ == old(self)@,
                (Some(_), None) => r == Received::Failed(EINVAL) && final(self)@ == old(self)@,
                (Some(i), Some(n)) => {
                    &&& final(self)@ == old(self)@.update(i, final(self)@[i])
                    &&& received_as(old(self)@[i], final(self)@[i], n as int, remaining, r)
                },
            },
    {
        let i: usize = match self.decode(mqd) {
            Some(i) => i,
            None => {
                return Received::Failed(EBADF);
            },
        };
        match len {
            None => Received::Failed(EINVAL),
            Some(n) => self.receive_from(i, n, remaining),
        }
    }

    /// Asks to be told of a message: accepted for every open queue, and nobody
    /// is ever told.
    pub fn sys_mq_notify(&self, mqd: i64, _sevp: u64) -> (r: i64)
        requires
            self.wf(),
        ensures
            r == if slot_of(self@, mqd) is Some {
                0
            } else {
                -EBADF as int
            },
    {
        match self.decode(mqd) {
            Some(_) => 0,
            None => -(EBADF as i64),
        }
    }

    /// The attributes of a queue before the call; of `new`, only whether a
    /// caller has to wait is taken over.
    pub fn sys_mq_getsetattr(&mut self, mqd: i64, new: Option<MqAttr>) -> (r: Result<MqAttr, i32>)
        requires
            old(self).wf(),
        ensures
            final(self).wf(),
            match slot_of(old(self)@, mqd) {
                None => r == Err::<MqAttr, i32>(EBADF) && final(self)@ == old(self)@,
                Some(i) => {
                    &&& r is Ok
                    &&& r->Ok_0.flags == if old(self)@[i].nonblock {
                        O_NONBLOCK as u64
                    } else {
                        0
                    }
                    &&& r->Ok_0.maxmsg == old(self)@[i].maxmsg
                    &&& r->Ok_0.msgsize == old(self)@[i].msgsize
                    &&& r->Ok_0.curmsgs == old(self)@[i].msgs.len()
                    &&& final(self)@ == match new {
                        None => old(self)@,
                        Some(a) => old(self)@.update(
                            i,
                            Queue { nonblock: a.flags & (O_NONBLOCK as u64) != 0, ..old(self)@[i] },
                        ),
                    }
                },
            },
    {
        let i: usize = match self.decode(mqd) {
            Some(i) => i,
            None => {
                return Err(EBADF);
            },
        };
        let ghost s0 = self@;
        assert(self@[i as int] == self.queues@[i as int]@);
        assert(self@[i as int].ok());
        let flags: u64 = if self.queues[i].nonblock {
            O_NONBLOCK as u64
        } else {
            0
        };
        let was = MqAttr {
            flags,
            maxmsg: self.queues[i].maxmsg as i64,
            msgsize: self.queues[i].msgsize as i64,
            curmsgs: self.queues[i].msgs.len() as i64,
        };
        if let Some(a) = new {
            self.set_nonblock(i, a.flags & (O_NONBLOCK as u64) != 0);
        }
        Ok(was)
    }
}

proof fn lemma_not_named(s: Seq<Queue>, name: Seq<u8>, k: int)
    requires
        0 <= k <= s.len(),
        named_from(s, name, k) == s.len(),
    ensures
        forall|i: int| k <= i < s.len() ==> !is_named(s, name, i),
    decreases s.len() - k,
{
    if k < s.len() {
        lemma_not_named(s, name, k + 1);
    }
}

} // verus!
