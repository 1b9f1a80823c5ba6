//! Interrupt lines: which are masked at the two controllers, who handles each,
//! and what is left to do after an interrupt. What has to be written to the
//! ports of the controllers is handed back to the caller.

use crate::bits::{bit8, lemma_bit8_off, lemma_bit8_on};
use crate::errno::{EBUSY, EINVAL};
use vstd::prelude::*;

verus! {

/// How many interrupt lines there are.
pub const NR_IRQS: usize = 16;
/// The vector of line 0.
pub const IRQ_BASE: usize = 0x20;
/// How many bottom halves there can be.
pub const NR_BHS: usize = 32;

pub const PIC1_CMD: u16 = 0x20;
pub const PIC1_DATA: u16 = 0x21;
pub const PIC2_CMD: u16 = 0xA0;
pub const PIC2_DATA: u16 = 0xA1;

/// Starts the initialisation of a controller: cascaded, edge triggered.
pub const ICW1_INIT: u8 = 0x11;
/// Puts a controller into its usual mode.
pub const ICW4_8086: u8 = 0x01;
/// Tells a controller that an interrupt has been taken.
pub const EOI: u8 = 0x20;

/// The line over which the second controller reports to the first.
pub const CASCADE: usize = 2;

/// A handler that does nothing.
pub const NO_ACTION: usize = 0;

/// A byte to be written to a port.
#[derive(Debug, Clone, Copy, PartialEq, Eq, Structural)]
pub struct PortWrite {
    pub port: u16,
    pub value: u8,
    /// Whether the controller needs time afterwards.
    pub pause: bool,
}

/// Who handles a line; handlers are known by numbers.
#[derive(Debug, Clone, Copy, PartialEq, Eq, Structural)]
pub struct IrqAction {
    pub handler: Option<usize>,
    pub in_use: bool,
    /// Whether other interrupts are kept off while it is handled.
    pub fast: bool,
    /// How often the line has been raised.
    pub count: u64,
}

/// What to do about an interrupt.
#[derive(Debug, Clone, Copy, PartialEq, Eq, Structural)]
pub enum Dispatch {
    /// Run that handler, with other interrupts on or off.
    Handle(usize, bool),
    /// Nobody handles the line.
    Spurious,
    /// There is no such line.
    Unknown,
}

/// The lines, the masks of the controllers, and the bottom halves.
pub struct Irqs {
    pub cache_21: u8,
    pub cache_a1: u8,
    pub actions: [IrqAction; 16],
    pub spurious: u64,
    /// How many interrupts are being handled.
    pub intr_count: u64,
    /// The bottom halves that are waiting, bit by bit.
    pub bh_active: u64,
    /// The bottom halves that may run, bit by bit.
    pub bh_mask: u64,
    pub bh_base: [Option<usize>; 32],
}

/// A walk over the bottom halves that were waiting when it began.
#[derive(Debug, Clone, Copy, PartialEq, Eq, Structural)]
pub struct BhWalk {
    pub active: u64,
    pub nr: usize,
}

/// Whether bottom half `k` is in a set.
pub open spec fn bit64(b: u64, k: int) -> bool {
    b & (1u64 << (k as u64)) != 0
}

/// The first line at `k` or after it of those in `b`, or 32.
pub open spec fn next_bit(b: u64, k: int) -> int
    decreases 32 - k,
{
    if k >= 32 {
        32
    } else if bit64(b, k) {
        k
    } else {
        next_bit(b, k + 1)
    }
}

pub open spec fn port_write(port: u16, value: u8) -> PortWrite {
    PortWrite { port, value, pause: false }
}

pub open spec fn slow_write(port: u16, value: u8) -> PortWrite {
    PortWrite { port, value, pause: true }
}

pub open spec fn no_handler() -> IrqAction {
    IrqAction { handler: None, in_use: false, fast: false, count: 0 }
}

proof fn lemma_bit64(b: u64, k: u64, j: u64)
    by (bit_vector)
    requires
        k < 64,
        j < 64,
    ensures
        ((b | (1u64 << k)) & (1u64 << j) != 0) == (j == k || b & (1u64 << j) != 0),
        ((b & !(1u64 << k)) & (1u64 << j) != 0) == (j != k && b & (1u64 << j) != 0),
{
}

proof fn lemma_no_bits(b: u64, k: u64)
    by (bit_vector)
    requires
        b == 0,
        k < 64,
    ensures
        b & (1u64 << k) == 0,
{
}

proof fn lemma_none_left(b: u64, k: int)
    requires
        b == 0,
        0 <= k <= 32,
    ensures
        next_bit(b, k) == 32,
    decreases 32 - k,
{
    if k < 32 {
        lemma_no_bits(b, k as u64);
        lemma_none_left(b, k + 1);
    }
}

impl Irqs {
    /// Whether a line is masked.
    pub open spec fn masked(&self, irq: int) -> bool {
        if irq < 8 {
            bit8(self.cache_21, irq)
        } else {
            bit8(self.cache_a1, irq - 8)
        }
    }

    /// Everything but the masks is the same.
    pub open spec fn same_lines(&self, new: &Irqs) -> bool {
        *new == (Irqs { cache_21: new.cache_21, cache_a1: new.cache_a1, ..*self })
    }

    /// No line has a handler, and all are masked.
    pub fn new() -> (r: Irqs)
        ensures
            r.cache_21 == 0xFF && r.cache_a1 == 0xFF,
            forall|i: int| 0 <= i < 16 ==> #[trigger] r.actions@[i] == no_handler(),
            r.spurious == 0 && r.intr_count == 0 && r.bh_active == 0 && r.bh_mask == u64::MAX,
            forall|i: int| 0 <= i < 32 ==> #[trigger] r.bh_base@[i] is None,
    {
        let a = IrqAction { handler: None, in_use: false, fast: false, count: 0 };
        Irqs {
            cache_21: 0xFF,
            cache_a1: 0xFF,
            actions: [a; 16],
            spurious: 0,
            intr_count: 0,
            bh_active: 0,
            bh_mask: u64::MAX,
            bh_base: [None; 32],
        }
    }

    /// Masks a line.
    pub fn disable_irq(&mut self, irq: usize) -> (w: Vec<PortWrite>)
        ensures
            old(self).same_lines(final(self)),
            forall|j: int|
                0 <= j < NR_IRQS ==> #[trigger] final(self).masked(j) == (old(self).masked(j) || j == irq),
            irq >= NR_IRQS ==> *final(self) == *old(self),
            w@ == if irq >= NR_IRQS {
                Seq::empty()
            } else if irq < 8 {
                seq![port_write(PIC1_DATA, final(self).cache_21)]
            } else {
                seq![port_write(PIC2_DATA, final(self).cache_a1)]
            },
    {
        let mut w: Vec<PortWrite> = Vec::new();
        if irq >= NR_IRQS {
            return w;
        }
        let k: u8 = (irq % 8) as u8;
        let mask: u8 = 1u8 << k;
        if irq < 8 {
            self.cache_21 = self.cache_21 | mask;
            w.push(PortWrite { port: PIC1_DATA, value: self.cache_21, pause: false });
        } else {
            self.cache_a1 = self.cache_a1 | mask;
            w.push(PortWrite { port: PIC2_DATA, value: self.cache_a1, pause: false });
        }
        assert forall|j: int| 0 <= j < NR_IRQS implies #[trigger] self.masked(j) == (old(self).masked(j) || j
            == irq) by {
            if j < 8 {
                lemma_bit8_on(old(self).cache_21, k, j as u8);
            } else {
                lemma_bit8_on(old(self).cache_a1, k, (j - 8) as u8);
            }
        }
        w
    }

    /// Lets a line through; for one of the second controller, also the line
    /// over which that reports.
    pub fn enable_irq(&mut self, irq: usize) -> (w: Vec<PortWrite>)
        ensures
            old(self).same_lines(final(self)),
            forall|j: int|
                0 <= j < NR_IRQS ==> #[trigger] final(self).masked(j) == (old(self).masked(j) && j != irq && !(8
                    <= irq < NR_IRQS && j == CASCADE)),
            irq >= NR_IRQS ==> *final(self) == *old(self),
            w@ == if irq >= NR_IRQS {
                Seq::empty()
            } else if irq < 8 {
                seq![port_write(PIC1_DATA, final(self).cache_21)]
            } else {
                seq![
                    port_write(PIC1_DATA, final(self).cache_21),
                    port_write(PIC2_DATA, final(self).cache_a1),
                ]
            },
    {
        let mut w: Vec<PortWrite> = Vec::new();
        if irq >= NR_IRQS {
            return w;
        }
        let k: u8 = (irq % 8) as u8;
        let mask: u8 = !(1u8 << k);
        if irq < 8 {
            self.cache_21 = self.cache_21 & mask;
            w.push(PortWrite { port: PIC1_DATA, value: self.cache_21, pause: false });
        } else {
            self.cache_21 = self.cache_21 & !(1u8 << 2u8);
            self.cache_a1 = self.cache_a1 & mask;
            w.push(PortWrite { port: PIC1_DATA, value: self.cache_21, pause: false });
            w.push(PortWrite { port: PIC2_DATA, value: self.cache_a1, pause: false });
        }
        assert forall|j: int| 0 <= j < NR_IRQS implies #[trigger] self.masked(j) == (old(self).masked(j) && j
            != irq && !(8 <= irq < NR_IRQS && j == CASCADE)) by {
            if irq < 8 {
                if j < 8 {
                    lemma_bit8_off(old(self).cache_21, k, j as u8);
                }
            } else if j < 8 {
                lemma_bit8_off(old(self).cache_21, 2u8, j as u8);
            } else {
                lemma_bit8_off(old(self).cache_a1, k, (j - 8) as u8);
            }
        }
        w
    }

    /// The masks: those of the first controller in the low byte, those of the
    /// second in the high one.
    pub fn irq_mask(&self) -> (r: u16)
        ensures
            r == self.cache_21 + 256 * self.cache_a1,
    {
        self.cache_21 as u16 + 256 * self.cache_a1 as u16
    }

    /// Gives a line to a handler and lets it through.
    pub fn request_irq(&mut self, irq: usize, handler: usize, fast: bool) -> (r: Result<Vec<PortWrite>, i32>)
        ensures
            match r {
                Err(e) => {
                    &&& *final(self) == *old(self)
                    &&& irq >= NR_IRQS && e == EINVAL || irq < NR_IRQS && old(self).actions@[irq as int].in_use
                        && e == EBUSY
                },
                Ok(w) => {
                    &&& irq < NR_IRQS && !old(self).actions@[irq as int].in_use
                    &&& final(self).actions@ == old(self).actions@.update(
                        irq as int,
                        IrqAction {
                            handler: Some(handler),
                            in_use: true,
                            fast,
                            count: old(self).actions@[irq as int].count,
                        },
                    )
                    &&& *final(self) == (Irqs {
                        cache_21: final(self).cache_21,
                        cache_a1: final(self).cache_a1,
                        actions: final(self).actions,
                        ..*old(self)
                    })
                    &&& forall|j: int|
                        0 <= j < NR_IRQS ==> #[trigger] final(self).masked(j) == (old(self).masked(j) && j != irq
                            && !(8 <= irq && j == CASCADE))
                    &&& w@ == if irq < 8 {
                        seq![port_write(PIC1_DATA, final(self).cache_21)]
                    } else {
                        seq![
                            port_write(PIC1_DATA, final(self).cache_21),
                            port_write(PIC2_DATA, final(self).cache_a1),
                        ]
                    }
                },
            },
    {
        if irq >= NR_IRQS {
            return Err(EINVAL);
        }
        if self.actions[irq].in_use {
            return Err(EBUSY);
        }
        let count: u64 = self.actions[irq].count;
        self.actions[irq] = IrqAction { handler: Some(handler), in_use: true, fast, count };
        let ghost mid = *self;
        assert forall|j: int| 0 <= j < NR_IRQS implies #[trigger] mid.masked(j) == old(self).masked(j) by {}
        Ok(self.enable_irq(irq))
    }

    /// Masks a line and takes it from its handler.
    pub fn free_irq(&mut self, irq: usize) -> (w: Vec<PortWrite>)
        ensures
            irq >= NR_IRQS ==> *final(self) == *old(self) && w@.len() == 0,
            irq < NR_IRQS ==> {
                &&& final(self).actions@ == old(self).actions@.update(
                    irq as int,
                    IrqAction {
                        handler: None,
                        in_use: false,
                        fast: false,
                        count: old(self).actions@[irq as int].count,
                    },
                )
                &&& *final(self) == (Irqs {
                    cache_21: final(self).cache_21,
                    cache_a1: final(self).cache_a1,
                    actions: final(self).actions,
                    ..*old(self)
                })
                &&& forall|j: int|
                    0 <= j < NR_IRQS ==> #[trigger] final(self).masked(j) == (old(self).masked(j) || j == irq)
                &&& w@ == if irq < 8 {
                    seq![port_write(PIC1_DATA, final(self).cache_21)]
                } else {
                    seq![port_write(PIC2_DATA, final(self).cache_a1)]
                }
            },
    {
        let w: Vec<PortWrite> = self.disable_irq(irq);
        if irq >= NR_IRQS {
            return w;
        }
        let ghost mid = *self;
        let count: u64 = self.actions[irq].count;
        self.actions[irq] = IrqAction { handler: None, in_use: false, fast: false, count };
        assert forall|j: int| 0 <= j < NR_IRQS implies #[trigger] self.masked(j) == mid.masked(j) by {}
        w
    }

    /// How often a line has been raised.
    pub fn irq_count(&self, irq: usize) -> (r: u64)
        ensures
            r == if irq < NR_IRQS {
                self.actions@[irq as int].count
            } else {
                0
            },
    {
        if irq >= NR_IRQS {
            0
        } else {
            self.actions[irq].count
        }
    }

    /// How often a line was raised that nobody handles.
    pub fn spurious_count(&self) -> (r: u64)
        ensures
            r == self.spurious,
    {
        self.spurious
    }

    /// Begins to handle an interrupt: counts it, says what to tell the
    /// controllers, which comes first, and what to do.
    pub fn enter_irq(&mut self, irq: u64) -> (r: (Vec<PortWrite>, Dispatch))
        requires
            old(self).intr_count < u64::MAX,
            irq < NR_IRQS ==> old(self).actions@[irq as int].count < u64::MAX,
            old(self).spurious < u64::MAX,
        ensures
            (r.0)@ == if irq >= 8 {
                seq![port_write(PIC2_CMD, EOI), port_write(PIC1_CMD, EOI)]
            } else {
                seq![port_write(PIC1_CMD, EOI)]
            },
            r.1 == if irq >= NR_IRQS {
                Dispatch::Unknown
            } else {
                match old(self).actions@[irq as int].handler {
                    Some(h) => Dispatch::Handle(h, !old(self).actions@[irq as int].fast),
                    None => Dispatch::Spurious,
                }
            },
            *final(self) == (Irqs {
                intr_count: (old(self).intr_count + 1) as u64,
                actions: final(self).actions,
                spurious: if r.1 == Dispatch::Spurious {
                    (old(self).spurious + 1) as u64
                } else {
                    old(self).spurious
                },
                ..*old(self)
            }),
            final(self).actions@ == if irq < NR_IRQS {
                old(self).actions@.update(
                    irq as int,
                    IrqAction {
                        count: (old(self).actions@[irq as int].count + 1) as u64,
                        ..old(self).actions@[irq as int]
                    },
                )
            } else {
                old(self).actions@
            },
    {
        self.intr_count = self.intr_count + 1;
        let mut w: Vec<PortWrite> = Vec::new();
        if irq >= 8 {
            w.push(PortWrite { port: PIC2_CMD, value: EOI, pause: false });
        }
        w.push(PortWrite { port: PIC1_CMD, value: EOI, pause: false });
        if irq >= NR_IRQS as u64 {
            return (w, Dispatch::Unknown);
        }
        let n: usize = irq as usize;
        let a: IrqAction = self.actions[n];
        self.actions[n] = IrqAction {
            handler: a.handler,
            in_use: a.in_use,
            fast: a.fast,
            count: a.count + 1,
        };
        match a.handler {
            Some(h) => (w, Dispatch::Handle(h, !a.fast)),
            None => {
                self.spurious = self.spurious + 1;
                (w, Dispatch::Spurious)
            },
        }
    }

    /// Ends the handling of an interrupt.
    pub fn leave_irq(&mut self)
        requires
            old(self).intr_count > 0,
        ensures
            *final(self) == (Irqs { intr_count: (old(self).intr_count - 1) as u64, ..*old(self) }),
    {
        self.intr_count = self.intr_count - 1;
    }

    /// Says what a bottom half does.
    pub fn init_bh(&mut self, nr: usize, routine: usize)
        ensures
            *final(self) == (Irqs { bh_base: final(self).bh_base, ..*old(self) }),
            final(self).bh_base@ == if nr < NR_BHS {
                old(self).bh_base@.update(nr as int, Some(routine))
            } else {
                old(self).bh_base@
            },
    {
        if nr >= NR_BHS {
            return;
        }
        self.bh_base[nr] = Some(routine);
    }

    /// Asks for a bottom half to be run.
    pub fn mark_bh(&mut self, nr: usize)
        ensures
            *final(self) == (Irqs { bh_active: final(self).bh_active, ..*old(self) }),
            forall|j: int|
                0 <= j < 64 ==> #[trigger] bit64(final(self).bh_active, j) == (bit64(old(self).bh_active, j) || nr
                    < NR_BHS && j == nr),
    {
        if nr >= NR_BHS {
            return;
        }
        let k: u64 = nr as u64;
        self.bh_active = self.bh_active | (1u64 << k);
        assert forall|j: int| 0 <= j < 64 implies #[trigger] bit64(self.bh_active, j) == (bit64(
            old(self).bh_active,
            j,
        ) || nr < NR_BHS && j == nr) by {
            lemma_bit64(old(self).bh_active, k, j as u64);
        }
    }

    /// Begins a walk over the bottom halves that are waiting and may run.
    pub fn begin_bottom_half(&self) -> (w: BhWalk)
        ensures
            w.nr == 0,
            w.active == self.bh_active & self.bh_mask,
    {
        BhWalk { active: self.bh_active & self.bh_mask, nr: 0 }
    }

    /// The next bottom half of a walk and what it does, which waits no longer
    /// then; nothing once the walk is over. One that is asked for again while
    /// it runs waits for the next walk.
    pub fn next_bottom_half(&mut self, w: &mut BhWalk) -> (r: Option<(usize, Option<usize>)>)
        requires
            old(w).nr <= NR_BHS,
        ensures
            final(w).nr <= NR_BHS,
            ({
                let k = next_bit(old(w).active, old(w).nr as int);
                match r {
                    None => k == NR_BHS && *final(self) == *old(self) && final(w).active == old(w).active,
                    Some((nr, f)) => {
                        &&& nr == k && k < NR_BHS
                        &&& f == old(self).bh_base@[k]
                        &&& final(w).nr == k + 1
                        &&& *final(self) == (Irqs { bh_active: final(self).bh_active, ..*old(self) })
                        &&& forall|j: int|
                            0 <= j < 64 ==> #[trigger] bit64(final(self).bh_active, j) == (bit64(
                                old(self).bh_active,
                                j,
                            ) && j != nr)
                        &&& forall|j: int|
                            0 <= j < 64 ==> #[trigger] bit64(final(w).active, j) == (bit64(old(w).active, j) && j
                                != nr)
                    },
                }
            }),
    {
        while w.active != 0 && w.nr < NR_BHS
            invariant
                w.nr <= NR_BHS,
                *self == *old(self),
                w.active == old(w).active,
                next_bit(old(w).active, old(w).nr as int) == next_bit(w.active, w.nr as int),
            decreases NR_BHS - w.nr,
        {
            let k: u64 = w.nr as u64;
            let bit: u64 = 1u64 << k;
            let nr: usize = w.nr;
            if w.active & bit != 0 {
                self.bh_active = self.bh_active & !bit;
                w.active = w.active & !bit;
                w.nr = nr + 1;
                assert forall|j: int| 0 <= j < 64 implies #[trigger] bit64(self.bh_active, j) == (bit64(
                    old(self).bh_active,
                    j,
                ) && j != nr) by {
                    lemma_bit64(old(self).bh_active, k, j as u64);
                }
                assert forall|j: int| 0 <= j < 64 implies #[trigger] bit64(w.active, j) == (bit64(
                    old(w).active,
                    j,
                ) && j != nr) by {
                    lemma_bit64(old(w).active, k, j as u64);
                }
                return Some((nr, self.bh_base[nr]));
            }
            w.nr = nr + 1;
        }
        proof {
            if w.active == 0 {
                lemma_none_left(w.active, w.nr as int);
            }
        }
        None
    }

    /// Sets the controllers up, with all lines masked and the line between them
    /// taken, and says what to write to their ports.
    pub fn init(&mut self) -> (w: Vec<PortWrite>)
        ensures
            w@ == seq![
                slow_write(PIC1_CMD, ICW1_INIT),
                slow_write(PIC2_CMD, ICW1_INIT),
                slow_write(PIC1_DATA, 0x20),
                slow_write(PIC2_DATA, 0x28),
                slow_write(PIC1_DATA, 4),
                slow_write(PIC2_DATA, 2),
                slow_write(PIC1_DATA, ICW4_8086),
                slow_write(PIC2_DATA, ICW4_8086),
                port_write(PIC1_DATA, 0xFF),
                port_write(PIC2_DATA, 0xFF),
            ],
            final(self).actions@ == old(self).actions@.update(
                CASCADE as int,
                IrqAction {
                    handler: Some(NO_ACTION),
                    in_use: true,
                    fast: true,
                    count: old(self).actions@[CASCADE as int].count,
                },
            ),
            *final(self) == (Irqs {
                cache_21: 0xFF,
                cache_a1: 0xFF,
                actions: final(self).actions,
                intr_count: 0,
                bh_active: 0,
                ..*old(self)
            }),
    {
        let mut w: Vec<PortWrite> = Vec::new();
        w.push(PortWrite { port: PIC1_CMD, value: ICW1_INIT, pause: true });
        w.push(PortWrite { port: PIC2_CMD, value: ICW1_INIT, pause: true });
        w.push(PortWrite { port: PIC1_DATA, value: IRQ_BASE as u8, pause: true });
        w.push(PortWrite { port: PIC2_DATA, value: (IRQ_BASE + 8) as u8, pause: true });
        w.push(PortWrite { port: PIC1_DATA, value: 4, pause: true });
        w.push(PortWrite { port: PIC2_DATA, value: 2, pause: true });
        w.push(PortWrite { port: PIC1_DATA, value: ICW4_8086, pause: true });
        w.push(PortWrite { port: PIC2_DATA, value: ICW4_8086, pause: true });
        self.cache_21 = 0xFF;
        self.cache_a1 = 0xFF;
        w.push(PortWrite { port: PIC1_DATA, value: 0xFF, pause: false });
        w.push(PortWrite { port: PIC2_DATA, value: 0xFF, pause: false });
        let count: u64 = self.actions[CASCADE].count;
        self.actions[CASCADE] = IrqAction {
            handler: Some(NO_ACTION),
            in_use: true,
            fast: true,
            count,
        };
        self.intr_count = 0;
        self.bh_active = 0;
        w
    }
}

/// A line that is requested and freed is masked, as it was, and has no handler;
/// what it has counted stays, and other lines of its controller are untouched.
pub proof fn lemma_request_free(a: &Irqs, b: &Irqs, c: &Irqs, irq: int)
    requires
        0 <= irq < NR_IRQS,
        a.masked(irq),
        forall|j: int|
            0 <= j < NR_IRQS ==> #[trigger] b.masked(j) == (a.masked(j) && j != irq && !(8 <= irq && j
                == CASCADE)),
        forall|j: int| 0 <= j < NR_IRQS ==> #[trigger] c.masked(j) == (b.masked(j) || j == irq),
    ensures
        !b.masked(irq),
        irq >= 8 ==> !b.masked(CASCADE as int),
        forall|j: int|
            0 <= j < NR_IRQS && !(irq >= 8 && j == CASCADE) ==> #[trigger] c.masked(j) == a.masked(j),
{
    assert forall|j: int| 0 <= j < NR_IRQS && !(irq >= 8 && j == CASCADE) implies #[trigger] c.masked(j)
        == a.masked(j) by {
        assert(b.masked(j) == (a.masked(j) && j != irq && !(8 <= irq && j == CASCADE)));
    }
    assert(b.masked(irq) == (a.masked(irq) && irq != irq && !(8 <= irq && irq == CASCADE)));
}

} // verus!
