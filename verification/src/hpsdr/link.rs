//! One Protocol 1 connection: what the network thread does about control
//! messages, incoming datagrams and the EP2 clock.
//!
//! The thread around it owns the socket, the clock and the sample rings. It
//! hands in what arrived and does what comes back.
use crate::hpsdr::discovery::board_is_hermes_lite;
use crate::hpsdr::ioboard::{fresh_board, time_ok, BoardState, HpsdrIoRxInput, IoBoard, Op};
use crate::hpsdr::protocol1::{
    build_ep2, conjugate, conjugated, decode_ep6, ep2_datagram, ep6_state, ep6_values, hl2_status,
    is_ep6, speed_code, urged, warn_due, Ep6Info, FifoFault, HpsdrFilterBoard, Regs, Rotation, Slot,
    TxHealth, TxWarnings, EP2_INTERVAL_US, NO_RX_US, VALUES_PER_DATAGRAM,
};
use crate::text::stands_at;
use vstd::prelude::*;

verus! {

/// How a connection is opened.
#[derive(Clone, Debug)]
pub struct LinkConfig {
    /// The board's name, as discovery reports it.
    pub board: String,
    pub rate_hz: u32,
    pub lna_gain_db: i32,
    pub filter_board: HpsdrFilterBoard,
    /// Mirror the spectrum, both ways.
    pub invert_spectrum: bool,
    /// Run the Hermes-Lite's onboard PA.
    pub pa_enable: bool,
    pub io_rx_input: HpsdrIoRxInput,
}

/// A control message.
#[derive(Clone, Copy, Debug, PartialEq, Eq, Structural)]
pub enum Ctrl {
    Attach { ddc: u8 },
    Detach { ddc: u8 },
    RxFreq { ddc: u8, hz: u32 },
    RxGain { db: i32 },
    TxFreq { hz: u32 },
    TxOn { hz: u32 },
    TxOff,
    Shutdown,
}

/// What a control message asks of the thread.
#[derive(Clone, Copy, Debug, PartialEq, Eq, Structural)]
pub struct CtrlAction {
    /// Take up the receive ring that came with the message.
    pub attach: bool,
    /// Let the receive ring go.
    pub detach: bool,
    /// Drop whatever the modulator left queued.
    pub drain_tx: bool,
    /// Stop the stream and end.
    pub stop: bool,
}

/// What an incoming datagram brought.
pub struct Reception {
    /// The sequence number, for loss detection.
    pub seq: u32,
    /// Interleaved I/Q.
    pub samples: Vec<i32>,
    /// The radio's PTT line has moved to this.
    pub ptt_moved: Option<bool>,
    pub tx: TxWarnings,
    /// The ADC clips, and it is time to say so.
    pub overload_warning: bool,
}

/// The state of a connection.
pub struct Link {
    pub speed: u8,
    pub hermes_lite: bool,
    pub invert_spectrum: bool,
    pub regs: Regs,
    pub rot: Rotation,
    /// Only a Hermes-Lite has the I2C tunnel this rides on. The board itself is
    /// looked for on the bus rather than configured.
    pub io_board: Option<IoBoard>,
    pub out_seq: u32,
    /// A receiver is attached. EP6 keeps arriving either way; with no stream
    /// attached the samples fall on the floor.
    pub attached: bool,
    pub next_ep2: u64,
    pub started: u64,
    pub seen_rx: bool,
    pub warned_no_rx: bool,
    pub radio_ptt: bool,
    /// The receive ring is still full from the over that just ended.
    pub tx_backlog: bool,
    pub tx_health: TxHealth,
    pub overloads: u64,
    pub last_overload_warn: Option<u64>,
}

/// The frequency that a connection starts on.
pub const START_HZ: u32 = 7_100_000;

/// Whether a link took in a datagram that brought `rx`.
pub open spec fn heard(was: Link, d: Seq<u8>, now: u64, rx: Reception, after: Link) -> bool {
    let info = ep6_state(d);
    &&& rx.seq == info.seq
    &&& !was.invert_spectrum ==> rx.samples@ == ep6_values(d)
    &&& was.invert_spectrum ==> rx.samples@ == conjugated(ep6_values(d))
    &&& after.radio_ptt == info.ptt
    &&& info.ptt == was.radio_ptt ==> rx.ptt_moved is None
    &&& info.ptt != was.radio_ptt ==> rx.ptt_moved == Some(info.ptt)
    &&& info.adc_overload ==> after.overloads == was.overloads + 1
    &&& !info.adc_overload ==> after.overloads == was.overloads && !rx.overload_warning
    &&& info.adc_overload ==> rx.overload_warning == warn_due(was.last_overload_warn, now)
    &&& rx.overload_warning ==> after.last_overload_warn == Some(now)
    &&& !rx.overload_warning ==> after.last_overload_warn == was.last_overload_warn
    &&& after.seen_rx
    &&& after.regs == was.regs && after.rot == was.rot && after.out_seq == was.out_seq
    &&& after.attached == was.attached && after.next_ep2 == was.next_ep2 && after.tx_backlog
        == was.tx_backlog
    &&& info.ack is None && after.io_board is Some ==> (after.io_board->0)@ == (was.io_board->0)@
}

/// Whether a link did what a control message asks for.
pub open spec fn obeyed(was: Link, msg: Ctrl, action: CtrlAction, after: Link) -> bool {
    &&& after.regs == was.regs_after(msg)
    &&& after.attached == (match msg {
        Ctrl::Attach { ddc } => was.attached || ddc == 0,
        Ctrl::Detach { ddc } => was.attached && ddc != 0,
        _ => was.attached,
    })
    &&& after.rot.urgent@ == (match was.urgent_for(msg) {
        Some(slot) => urged(was.rot.urgent@, slot),
        None => was.rot.urgent@,
    })
    &&& action.attach == (msg == Ctrl::Attach { ddc: 0 })
    &&& action.detach == (was.attached && msg == Ctrl::Detach { ddc: 0 })
    &&& action.drain_tx == (msg == Ctrl::TxOff || action.detach && was.regs.ptt)
    &&& action.stop == (msg == Ctrl::Shutdown)
    &&& after.io_board == was.io_board && after.out_seq == was.out_seq && after.next_ep2 == was.next_ep2
}

/// What the second frame of the datagram due at `now` carries: a request of the
/// accessory board, or the first urgent register, or the next in turn.
pub open spec fn second_register(was: Link, now: u64) -> Seq<u8> {
    let list = was.regs.slot_list();
    if was.io_board is Some && was.io_turn(now).1 is Some {
        was.io_turn(now).1->0.block(was.regs.mox())
    } else if was.rot.urgent@.len() > 0 {
        was.regs.block(was.rot.urgent@[0])
    } else {
        was.regs.block(list[was.rot.next as int % list.len() as int])
    }
}

/// Whether a link sent `d` with the samples `iq`.
pub open spec fn sent(was: Link, now: u64, iq: Seq<i32>, d: Seq<u8>, after: Link) -> bool {
    &&& d == ep2_datagram(
        was.out_seq,
        was.speed,
        was.regs.mox(),
        was.regs.outputs() as u8,
        second_register(was, now),
        narrowed(
            if was.invert_spectrum {
                conjugated(iq)
            } else {
                iq
            },
        ),
    )
    &&& after.out_seq == (was.out_seq + 1) % 0x1_0000_0000
    &&& after.next_ep2 == next_tick(was.next_ep2, now)
    &&& after.regs == was.regs && after.attached == was.attached && after.radio_ptt == was.radio_ptt
}

/// Whether the receive ring's reader is expected to be away.
pub open spec fn is_away(l: Link, rx_paused: bool) -> bool {
    l.regs.ptt || rx_paused || l.tx_backlog
}

/// Whether the next datagram's time has come.
pub open spec fn is_ep2_due(l: Link, now: u64) -> bool {
    now >= l.next_ep2
}

/// The values that the next datagram takes from the transmit ring.
pub open spec fn values_wanted(l: Link) -> int {
    if l.regs.ptt {
        252
    } else {
        0
    }
}

impl Link {
    pub open spec fn wf(&self) -> bool {
        &&& self.io_board matches Some(b) ==> b@.wf()
        &&& self.io_board is Some == self.hermes_lite
        &&& self.speed <= 3
    }

    /// A connection as it is opened at `now`: the board decides which of the
    /// Hermes-Lite's registers may be touched.
    pub fn new(cfg: &LinkConfig, now: u64) -> (r: Link)
        ensures
            r.wf(),
            ({
                let hl2 = stands_at(cfg.board@, "Hermes-Lite"@, 0);
                &&& r.hermes_lite == hl2
                &&& r.regs == (Regs {
                    rx_freq: 7_100_000,
                    tx_freq: 7_100_000,
                    lna_gain: if hl2 {
                        Some(cfg.lna_gain_db)
                    } else {
                        None
                    },
                    pa: if hl2 {
                        Some(cfg.pa_enable)
                    } else {
                        None
                    },
                    filter_board: cfg.filter_board,
                    ptt: false,
                })
                &&& r.io_board matches Some(b) ==> b@ == fresh_board(cfg.io_rx_input)
            }),
            r.invert_spectrum == cfg.invert_spectrum,
            r.speed == (if cfg.rate_hz <= 48_000 {
                0u8
            } else if cfg.rate_hz <= 96_000 {
                1u8
            } else if cfg.rate_hz <= 192_000 {
                2u8
            } else {
                3u8
            }),
            r.rot.next == 0 && r.rot.urgent@.len() == 0,
            r.out_seq == 0 && r.next_ep2 == now && r.started == now,
            !r.attached && !r.seen_rx && !r.warned_no_rx && !r.radio_ptt && !r.tx_backlog,
            r.overloads == 0 && r.last_overload_warn is None,
            r.tx_health.last_inhibit_warn is None && r.tx_health.last_fifo_warn is None,
    {
        let hermes_lite: bool = board_is_hermes_lite(cfg.board.as_str());
        Link {
            speed: speed_code(cfg.rate_hz),
            hermes_lite,
            invert_spectrum: cfg.invert_spectrum,
            regs: Regs {
                rx_freq: START_HZ,
                tx_freq: START_HZ,
                lna_gain: if hermes_lite {
                    Some(cfg.lna_gain_db)
                } else {
                    None
                },
                pa: if hermes_lite {
                    Some(cfg.pa_enable)
                } else {
                    None
                },
                filter_board: cfg.filter_board,
                ptt: false,
            },
            rot: Rotation::new(),
            io_board: if hermes_lite {
                Some(IoBoard::new(cfg.io_rx_input))
            } else {
                None
            },
            out_seq: 0,
            attached: false,
            next_ep2: now,
            started: now,
            seen_rx: false,
            warned_no_rx: false,
            radio_ptt: false,
            tx_backlog: false,
            tx_health: TxHealth::default(),
            overloads: 0,
            last_overload_warn: None,
        }
    }

    /// How many datagrams prime the registers before the run command: two full
    /// rotations so every slot lands, including the front-end gain.
    pub fn priming_count(&self) -> (r: usize)
        ensures
            r == 2 * self.regs.slot_list().len(),
    {
        2 * self.regs.slots().len()
    }

    /// The next priming datagram: a register of the rotation and no samples.
    pub fn priming_datagram(&mut self) -> (d: Vec<u8>)
        requires
            old(self).wf(),
            old(self).rot.urgent@.len() == 0,
        ensures
            final(self).wf(),
            d@ == ep2_datagram(
                old(self).out_seq,
                old(self).speed,
                0,
                old(self).regs.outputs() as u8,
                old(self).regs.block(
                    old(self).regs.slot_list()[old(self).rot.next as int % old(self).regs.slot_list().len() as int],
                ),
                Seq::empty(),
            ),
            final(self).rot.urgent@.len() == 0,
            final(self).rot.next == (if old(self).rot.next == u64::MAX {
                0
            } else {
                old(self).rot.next + 1
            }),
            final(self).out_seq == (if old(self).out_seq == u32::MAX {
                0
            } else {
                old(self).out_seq + 1
            }),
            *final(self) == (Link {
                rot: final(self).rot,
                out_seq: final(self).out_seq,
                ..*old(self)
            }),
    {
        let slot: Slot = self.rot.take(&self.regs);
        let cc: [u8; 5] = self.regs.cc(slot);
        let none: Vec<i16> = Vec::new();
        assert(none@ =~= Seq::empty());
        build_ep2(&mut self.out_seq, self.speed, 0, self.regs.oc(), cc, none.as_slice())
    }

    /// The registers after a control message.
    pub open spec fn regs_after(&self, msg: Ctrl) -> Regs {
        match msg {
            Ctrl::Detach { ddc } => if ddc == 0 && self.attached {
                Regs { ptt: false, ..self.regs }
            } else {
                self.regs
            },
            Ctrl::RxFreq { ddc, hz } => if ddc == 0 {
                Regs { rx_freq: hz, ..self.regs }
            } else {
                self.regs
            },
            Ctrl::RxGain { db } => if self.hermes_lite {
                Regs { lna_gain: Some(db), ..self.regs }
            } else {
                self.regs
            },
            Ctrl::TxFreq { hz } => Regs { tx_freq: hz, ..self.regs },
            Ctrl::TxOn { hz } => Regs { tx_freq: hz, ptt: true, ..self.regs },
            Ctrl::TxOff => Regs { ptt: false, ..self.regs },
            _ => self.regs,
        }
    }

    /// The register that a control message makes urgent.
    pub open spec fn urgent_for(&self, msg: Ctrl) -> Option<Slot> {
        match msg {
            Ctrl::RxFreq { ddc, hz } => if ddc == 0 {
                Some(Slot::RxFreq)
            } else {
                None
            },
            Ctrl::RxGain { db } => if self.hermes_lite {
                Some(Slot::LnaGain)
            } else {
                None
            },
            Ctrl::TxFreq { hz } => if self.regs.tx_freq != hz {
                Some(Slot::TxFreq)
            } else {
                None
            },
            Ctrl::TxOn { hz } => Some(Slot::TxFreq),
            _ => None,
        }
    }

    /// Take in a control message.
    ///
    /// A stream that goes away in the middle of an over is unkeyed rather than
    /// left on the air unattended. What the modulator left queued when a
    /// transmission ends is dropped: playing it out at the start of the next one
    /// would key up with a stale tail.
    #[verifier::spinoff_prover]
    #[verifier::rlimit(40)]
    pub fn on_ctrl(&mut self, msg: Ctrl) -> (r: CtrlAction)
        requires
            old(self).wf(),
        ensures
            final(self).wf(),
            final(self).regs == old(self).regs_after(msg),
            final(self).rot.next == old(self).rot.next,
            final(self).rot.urgent@ == (match old(self).urgent_for(msg) {
                Some(slot) => urged(old(self).rot.urgent@, slot),
                None => old(self).rot.urgent@,
            }),
            final(self).attached == (match msg {
                Ctrl::Attach { ddc } => old(self).attached || ddc == 0,
                Ctrl::Detach { ddc } => old(self).attached && ddc != 0,
                _ => old(self).attached,
            }),
            final(self).radio_ptt == (if msg == Ctrl::Shutdown {
                false
            } else {
                old(self).radio_ptt
            }),
            r.attach == (msg == Ctrl::Attach { ddc: 0 }),
            r.detach == (msg == Ctrl::Detach { ddc: 0 } && old(self).attached),
            r.drain_tx == (msg == Ctrl::TxOff || (r.detach && old(self).regs.ptt)),
            r.stop == (msg == Ctrl::Shutdown),
            *final(self) == (Link {
                regs: final(self).regs,
                rot: final(self).rot,
                attached: final(self).attached,
                radio_ptt: final(self).radio_ptt,
                ..*old(self)
            }),
            obeyed(*old(self), msg, r, *final(self)),
    {
        let mut r = CtrlAction { attach: false, detach: false, drain_tx: false, stop: false };
        match msg {
            Ctrl::Attach { ddc } => {
                // Protocol 1 has exactly one receiver in this framing.
                if ddc == 0 {
                    self.attached = true;
                    r.attach = true;
                }
            },
            Ctrl::Detach { ddc } => {
                if ddc == 0 && self.attached {
                    self.attached = false;
                    r.detach = true;
                    if self.regs.ptt {
                        self.regs.ptt = false;
                        r.drain_tx = true;
                    }
                }
            },
            Ctrl::RxFreq { ddc, hz } => {
                if ddc == 0 {
                    self.regs.rx_freq = hz;
                    self.rot.urge(Slot::RxFreq);
                }
            },
            Ctrl::RxGain { db } => {
                if self.hermes_lite {
                    self.regs.lna_gain = Some(db);
                    self.rot.urge(Slot::LnaGain);
                }
            },
            Ctrl::TxFreq { hz } => {
                if self.regs.tx_freq != hz {
                    self.regs.tx_freq = hz;
                    self.rot.urge(Slot::TxFreq);
                }
            },
            Ctrl::TxOn { hz } => {
                self.regs.tx_freq = hz;
                self.regs.ptt = true;
                self.rot.urge(Slot::TxFreq);
            },
            Ctrl::TxOff => {
                self.regs.ptt = false;
                r.drain_tx = true;
            },
            Ctrl::Shutdown => {
                // Leave no stale "keyed" behind.
                self.radio_ptt = false;
                r.stop = true;
            },
        }
        r
    }

    /// Take in a datagram. `None` when it is no EP6 I/Q, which changes nothing.
    #[verifier::spinoff_prover]
    #[verifier::rlimit(40)]
    pub fn on_datagram(&mut self, d: &[u8], now: u64) -> (r: Option<Reception>)
        requires
            old(self).wf(),
            time_ok(now),
            old(self).overloads < u64::MAX,
        ensures
            final(self).wf(),
            r is Some <==> is_ep6(d@),
            r is None ==> *final(self) == *old(self),
            r matches Some(rx) ==> {
                let info = ep6_state(d@);
                &&& rx.seq == info.seq
                &&& rx.samples@ == (if old(self).invert_spectrum {
                    conjugated(ep6_values(d@))
                } else {
                    ep6_values(d@)
                })
                &&& rx.ptt_moved == (if info.ptt != old(self).radio_ptt {
                    Some(info.ptt)
                } else {
                    None
                })
                &&& rx.overload_warning == (info.adc_overload && warn_due(
                    old(self).last_overload_warn,
                    now,
                ))
                &&& rx.tx.inhibited == (old(self).hermes_lite && info.versions is Some && (
                info.versions->0).0 & 0x02 == 0 && warn_due(
                    old(self).tx_health.last_inhibit_warn,
                    now,
                ))
                &&& rx.tx.fifo is Some == (old(self).hermes_lite && info.versions is Some
                    && old(self).regs.ptt && (info.versions->0).2 & 0x80 != 0 && warn_due(
                    old(self).tx_health.last_fifo_warn,
                    now,
                ))
                &&& rx.tx.fifo matches Some(f) ==> f == (if (info.versions->0).2 & 0x40 == 0 {
                    FifoFault::Underrun
                } else {
                    FifoFault::Overflow
                })
                &&& final(self).radio_ptt == info.ptt
                &&& final(self).seen_rx
                &&& final(self).overloads == old(self).overloads + (if info.adc_overload {
                    1int
                } else {
                    0int
                })
                &&& final(self).last_overload_warn == (if rx.overload_warning {
                    Some(now)
                } else {
                    old(self).last_overload_warn
                })
                &&& final(self).tx_health.last_inhibit_warn == (if rx.tx.inhibited {
                    Some(now)
                } else {
                    old(self).tx_health.last_inhibit_warn
                })
                &&& final(self).tx_health.last_fifo_warn == (if rx.tx.fifo is Some {
                    Some(now)
                } else {
                    old(self).tx_health.last_fifo_warn
                })
                &&& final(self).io_board is Some ==> (final(self).io_board->0)@ == (
                match info.ack {
                    Some((raddr, data)) => (old(self).io_board->0)@.acked(raddr, data[0], now),
                    None => (old(self).io_board->0)@,
                })
                &&& *final(self) == (Link {
                    radio_ptt: final(self).radio_ptt,
                    seen_rx: final(self).seen_rx,
                    overloads: final(self).overloads,
                    last_overload_warn: final(self).last_overload_warn,
                    tx_health: final(self).tx_health,
                    io_board: final(self).io_board,
                    ..*old(self)
                })
                &&& heard(*old(self), d@, now, rx, *final(self))
            },
    {
        let mut samples: Vec<i32> = Vec::new();
        let info: Ep6Info = match decode_ep6(d, &mut samples) {
            None => {
                return None;
            },
            Some(info) => info,
        };
        assert(samples@ =~= ep6_values(d@));
        if self.invert_spectrum {
            proof {
                lemma_values_range(d@);
            }
            conjugate(&mut samples);
        }
        self.seen_rx = true;
        let mut tx = TxWarnings { inhibited: false, fifo: None };
        match info.versions {
            Some((c1, _c2, c3, _c4)) => {
                if self.hermes_lite {
                    tx = hl2_status(c1, c3, self.regs.ptt, &mut self.tx_health, now);
                }
            },
            None => {},
        }
        // An answer to an I2C request: the only thing that asks for one is the
        // accessory-board driver.
        match info.ack {
            Some((raddr, data)) => {
                match &mut self.io_board {
                    Some(b) => {
                        b.on_ack(raddr, data, now);
                    },
                    None => {},
                }
            },
            None => {},
        }
        // The radio's own PTT input, published as a level.
        let ptt_moved: Option<bool> = if info.ptt != self.radio_ptt {
            self.radio_ptt = info.ptt;
            Some(info.ptt)
        } else {
            None
        };
        // An overloaded ADC is the classic "the signal looks weird" fault.
        // Rate-limit the warning, it can fire every datagram.
        let mut overload_warning: bool = false;
        if info.adc_overload {
            self.overloads = self.overloads + 1;
            overload_warning = TxHealth::due(&mut self.last_overload_warn, now);
        }
        Some(Reception { seq: info.seq, samples, ptt_moved, tx, overload_warning })
    }

    /// Whether the reader of the receive ring is expected to be away, so that a
    /// full ring is no overrun: it is keyed, or the engine is not reading, or
    /// the ring is still full from the over that just ended.
    pub fn reader_away(&self, rx_paused: bool) -> (r: bool)
        ensures
            r == (self.regs.ptt || rx_paused || self.tx_backlog),
            r == is_away(*self, rx_paused),
    {
        self.regs.ptt || rx_paused || self.tx_backlog
    }

    /// A block was offered to the receive ring, and taken or not. The ring is
    /// still full at unkey until the engine drains it; a block taken is the
    /// proof that the reader is back.
    pub fn on_pushed(&mut self, away: bool, taken: bool)
        requires
            old(self).wf(),
        ensures
            final(self).wf(),
            *final(self) == (Link { tx_backlog: !taken && away, ..*old(self) }),
    {
        self.tx_backlog = !taken && away;
    }

    /// Whether to flag a radio that accepted the run command but never streams
    /// I/Q. Once.
    pub fn no_rx_warning(&mut self, now: u64) -> (r: bool)
        requires
            old(self).wf(),
        ensures
            final(self).wf(),
            r == (!old(self).seen_rx && !old(self).warned_no_rx && now - old(self).started
                >= 3_000_000),
            *final(self) == (Link { warned_no_rx: old(self).warned_no_rx || r, ..*old(self) }),
    {
        let r: bool = !self.seen_rx && !self.warned_no_rx && now >= self.started && now
            - self.started >= NO_RX_US;
        if r {
            self.warned_no_rx = true;
        }
        r
    }

    /// Whether an EP2 datagram is due.
    pub fn ep2_due(&self, now: u64) -> (r: bool)
        ensures
            r == (now >= self.next_ep2),
            r == is_ep2_due(*self, now),
    {
        now >= self.next_ep2
    }

    /// How many values to take from the transmit ring for the next datagram:
    /// whole I/Q pairs while keyed, nothing otherwise.
    pub fn tx_wanted(&self) -> (r: usize)
        ensures
            r == (if self.regs.ptt {
                252int
            } else {
                0int
            }),
            r == values_wanted(*self),
    {
        if self.regs.ptt {
            VALUES_PER_DATAGRAM
        } else {
            0
        }
    }

    /// The accessory board's turn: its next request, if it has something to say.
    pub open spec fn io_turn(&self, now: u64) -> (BoardState, Option<Op>) {
        (self.io_board->0)@.polled(now, self.regs.tx_freq as u64, self.regs.rx_freq as u64)
    }

    /// The EP2 datagram due at `now`, with `tx_iq` from the transmit ring.
    ///
    /// An accessory board on the I2C tunnel gets frame #2 when it has something
    /// to say; the register rotation keeps the slot the rest of the time and
    /// never loses its turn. After a scheduler stall the clock resyncs instead
    /// of firing off the backlog in a burst the radio's FIFO would only drop.
    #[verifier::rlimit(30)]
    pub fn ep2(&mut self, now: u64, tx_iq: Vec<i32>) -> (d: Vec<u8>)
        requires
            old(self).wf(),
            time_ok(now),
            now >= old(self).next_ep2,
            forall|i: int| 0 <= i < tx_iq@.len() ==> -32767 <= #[trigger] tx_iq@[i] <= 32767,
        ensures
            final(self).wf(),
            ({
                let asks = old(self).io_board is Some && old(self).io_turn(now).1 is Some;
                let list = old(self).regs.slot_list();
                let urgent = old(self).rot.urgent@;
                let cc = if asks {
                    old(self).io_turn(now).1->0.block(old(self).regs.mox())
                } else if urgent.len() > 0 {
                    old(self).regs.block(urgent[0])
                } else {
                    old(self).regs.block(list[old(self).rot.next as int % list.len() as int])
                };
                &&& d@ == ep2_datagram(
                    old(self).out_seq,
                    old(self).speed,
                    old(self).regs.mox(),
                    old(self).regs.outputs() as u8,
                    cc,
                    narrowed(
                        if old(self).invert_spectrum {
                            conjugated(tx_iq@)
                        } else {
                            tx_iq@
                        },
                    ),
                )
                &&& old(self).io_board is Some ==> (final(self).io_board->0)@ == old(self).io_turn(
                    now,
                ).0
                &&& asks ==> final(self).rot == old(self).rot
                &&& !asks && urgent.len() > 0 ==> final(self).rot.urgent@ == urgent.drop_first()
                    && final(self).rot.next == old(self).rot.next
                &&& !asks && urgent.len() == 0 ==> final(self).rot.urgent@.len() == 0
                    && final(self).rot.next == (if old(self).rot.next == u64::MAX {
                    0
                } else {
                    old(self).rot.next + 1
                })
            }),
            final(self).out_seq == (if old(self).out_seq == u32::MAX {
                0
            } else {
                old(self).out_seq + 1
            }),
            final(self).next_ep2 == next_tick(old(self).next_ep2, now),
            *final(self) == (Link {
                rot: final(self).rot,
                io_board: final(self).io_board,
                out_seq: final(self).out_seq,
                next_ep2: final(self).next_ep2,
                ..*old(self)
            }),
            sent(*old(self), now, tx_iq@, d@, *final(self)),
    {
        let mut iq: Vec<i32> = tx_iq;
        let ghost given = iq@;
        if self.invert_spectrum {
            assert forall|i: int| 0 <= i < iq@.len() implies #[trigger] iq@[i] > i32::MIN by {
                assert(given[i] >= -32767);
            }
            conjugate(&mut iq);
        }
        assert forall|i: int| 0 <= i < iq@.len() implies -32767 <= #[trigger] iq@[i] <= 32767 by {
            assert(-32767 <= given[i] <= 32767);
        }
        let samples: Vec<i16> = narrow(&iq);
        let mox: u8 = if self.regs.ptt {
            1
        } else {
            0
        };
        let asked: Option<[u8; 5]> = match &mut self.io_board {
            Some(b) => b.next_request(now, self.regs.tx_freq as u64, self.regs.rx_freq as u64, mox),
            None => None,
        };
        let cc: [u8; 5] = match asked {
            Some(cc) => cc,
            None => {
                let slot: Slot = self.rot.take(&self.regs);
                self.regs.cc(slot)
            },
        };
        let oc: u8 = self.regs.oc();
        let d: Vec<u8> = build_ep2(&mut self.out_seq, self.speed, mox, oc, cc, samples.as_slice());
        self.next_ep2 = self.next_ep2 + EP2_INTERVAL_US;
        if self.next_ep2 + EP2_INTERVAL_US < now {
            self.next_ep2 = now + EP2_INTERVAL_US;
        }
        d
    }
}

/// Values as 16-bit samples.
pub open spec fn narrowed(iq: Seq<i32>) -> Seq<i16> {
    Seq::new(iq.len(), |i: int| iq[i] as i16)
}

fn narrow(iq: &Vec<i32>) -> (r: Vec<i16>)
    requires
        forall|i: int| 0 <= i < iq@.len() ==> -32767 <= #[trigger] iq@[i] <= 32767,
    ensures
        r@ == narrowed(iq@),
{
    let mut out: Vec<i16> = Vec::new();
    let mut i: usize = 0;
    while i < iq.len()
        invariant
            i <= iq@.len(),
            out.len() == i,
            forall|k: int| 0 <= k < iq@.len() ==> -32767 <= #[trigger] iq@[k] <= 32767,
            forall|k: int| 0 <= k < i ==> #[trigger] out@[k] == iq@[k],
        decreases iq@.len() - i,
    {
        out.push(iq[i] as i16);
        i = i + 1;
    }
    assert(out@ =~= narrowed(iq@));
    out
}

proof fn lemma_values_range(d: Seq<u8>)
    ensures
        forall|i: int| 0 <= i < ep6_values(d).len() ==> #[trigger] ep6_values(d)[i] > i32::MIN,
{
}

/// When the EP2 datagram after the one sent at `now`, due at `due`, is due: one
/// interval on, or one interval from now after a stall of more than one.
pub open spec fn next_tick(due: u64, now: u64) -> int {
    if due + 2 * 2_625 < now {
        now + 2_625
    } else {
        due + 2_625
    }
}

/// The EP2 clock never runs ahead of the air by more than an interval, nor
/// falls back by more than one: a stalled thread sends no burst.
pub proof fn the_ep2_clock_keeps_step(due: u64, now: u64)
    requires
        due <= now,
    ensures
        now <= next_tick(due, now) + 2_625,
        next_tick(due, now) <= now + 2_625,
{
}

} // verus!
