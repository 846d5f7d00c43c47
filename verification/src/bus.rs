//! The steps of a transfer to the panel.
use vstd::prelude::*;

verus! {

/// One step of a transfer to the panel, as the driver performs it.
#[derive(Clone, Debug, PartialEq, Eq)]
pub enum BusOp {
    /// Drive the data/command line low: the next bytes are a command.
    DcLow,
    /// Drive the data/command line high: the next bytes are parameters or pixels.
    DcHigh,
    /// Send bytes over SPI.
    Write(Vec<u8>),
    /// Drive the reset line low.
    RstLow,
    /// Drive the reset line high.
    RstHigh,
    /// Wait this many milliseconds.
    DelayMs(u64),
}

/// The mathematical form of a [`BusOp`].
pub enum Op {
    /// Data/command line low.
    DcLow,
    /// Data/command line high.
    DcHigh,
    /// These bytes over SPI.
    Write(Seq<u8>),
    /// Reset line low.
    RstLow,
    /// Reset line high.
    RstHigh,
    /// A wait of this many milliseconds.
    DelayMs(nat),
}

impl View for BusOp {
    type V = Op;

    open spec fn view(&self) -> Op {
        match self {
            BusOp::DcLow => Op::DcLow,
            BusOp::DcHigh => Op::DcHigh,
            BusOp::Write(v) => Op::Write(v@),
            BusOp::RstLow => Op::RstLow,
            BusOp::RstHigh => Op::RstHigh,
            BusOp::DelayMs(ms) => Op::DelayMs(*ms as nat),
        }
    }
}

/// The mathematical form of a list of steps.
pub open spec fn ops_view(v: Seq<BusOp>) -> Seq<Op> {
    v.map_values(|o: BusOp| o@)
}

/// A command byte: data/command low, then the byte.
pub open spec fn cmd(c: u8) -> Seq<Op> {
    seq![Op::DcLow, Op::Write(seq![c])]
}

/// Parameter or pixel bytes: data/command high, then the bytes.
pub open spec fn data(d: Seq<u8>) -> Seq<Op> {
    seq![Op::DcHigh, Op::Write(d)]
}

/// Appends a command byte.
pub(crate) fn push_cmd(ops: &mut Vec<BusOp>, c: u8)
    ensures
        ops_view(final(ops)@) == ops_view(old(ops)@) + cmd(c),
{
    let b: Vec<u8> = vec![c];
    assert(b@ =~= seq![c]);
    ops.push(BusOp::DcLow);
    ops.push(BusOp::Write(b));
    assert(ops_view(ops@) =~= ops_view(old(ops)@) + cmd(c));
}

/// Appends parameter or pixel bytes.
pub(crate) fn push_data(ops: &mut Vec<BusOp>, d: Vec<u8>)
    ensures
        ops_view(final(ops)@) == ops_view(old(ops)@) + data(d@),
{
    let ghost dv = d@;
    ops.push(BusOp::DcHigh);
    ops.push(BusOp::Write(d));
    assert(ops_view(ops@) =~= ops_view(old(ops)@) + data(dv));
}

/// Appends bytes without touching the data/command line.
pub(crate) fn push_write(ops: &mut Vec<BusOp>, d: Vec<u8>)
    ensures
        ops_view(final(ops)@) == ops_view(old(ops)@).push(Op::Write(d@)),
{
    let ghost dv = d@;
    ops.push(BusOp::Write(d));
    assert(ops_view(ops@) =~= ops_view(old(ops)@).push(Op::Write(dv)));
}

/// Appends a wait.
pub(crate) fn push_delay(ops: &mut Vec<BusOp>, ms: u64)
    ensures
        ops_view(final(ops)@) == ops_view(old(ops)@).push(Op::DelayMs(ms as nat)),
{
    ops.push(BusOp::DelayMs(ms));
    assert(ops_view(ops@) =~= ops_view(old(ops)@).push(Op::DelayMs(ms as nat)));
}

/// Appends one step without bytes.
pub(crate) fn push_op(ops: &mut Vec<BusOp>, o: BusOp)
    requires
        !(o is Write),
    ensures
        ops_view(final(ops)@) == ops_view(old(ops)@).push(o@),
{
    let ghost ov = o@;
    ops.push(o);
    assert(ops_view(ops@) =~= ops_view(old(ops)@).push(ov));
}

/// The bytes that steps put on the bus, each paired with the level of the
/// data/command line when it is sent (`true`: data), the line starting at
/// `dc`. Resets and waits send nothing.
pub open spec fn wire(ops: Seq<Op>, dc: bool) -> Seq<(bool, u8)>
    decreases ops.len(),
{
    if ops.len() == 0 {
        Seq::empty()
    } else {
        match ops[0] {
            Op::DcLow => wire(ops.drop_first(), false),
            Op::DcHigh => wire(ops.drop_first(), true),
            Op::Write(b) => b.map_values(|v: u8| (dc, v)) + wire(ops.drop_first(), dc),
            _ => wire(ops.drop_first(), dc),
        }
    }
}

/// The level of the data/command line after the steps, from `dc`.
pub open spec fn level_after(ops: Seq<Op>, dc: bool) -> bool
    decreases ops.len(),
{
    if ops.len() == 0 {
        dc
    } else {
        match ops[0] {
            Op::DcLow => level_after(ops.drop_first(), false),
            Op::DcHigh => level_after(ops.drop_first(), true),
            _ => level_after(ops.drop_first(), dc),
        }
    }
}

/// Two step lists put the same bytes on the bus, with the same
/// data/command levels, and leave the line alike, from either level.
pub open spec fn same_stream(a: Seq<Op>, b: Seq<Op>) -> bool {
    forall|dc: bool| #[trigger] wire(a, dc) == wire(b, dc) && level_after(a, dc) == level_after(b, dc)
}

/// What steps put on the bus one after the other is what each puts on it.
pub proof fn lemma_wire_append(a: Seq<Op>, b: Seq<Op>, dc: bool)
    ensures
        wire(a + b, dc) == wire(a, dc) + wire(b, level_after(a, dc)),
        level_after(a + b, dc) == level_after(b, level_after(a, dc)),
    decreases a.len(),
{
    if a.len() == 0 {
        assert(a + b =~= b);
        assert(wire(a, dc) + wire(b, dc) =~= wire(b, dc));
    } else {
        assert((a + b)[0] == a[0]);
        assert((a + b).drop_first() =~= a.drop_first() + b);
        match a[0] {
            Op::DcLow => {
                lemma_wire_append(a.drop_first(), b, false);
            },
            Op::DcHigh => {
                lemma_wire_append(a.drop_first(), b, true);
            },
            Op::Write(bytes) => {
                lemma_wire_append(a.drop_first(), b, dc);
                assert(wire(a + b, dc) =~= wire(a, dc) + wire(b, level_after(a, dc)));
            },
            _ => {
                lemma_wire_append(a.drop_first(), b, dc);
            },
        }
    }
}

/// What a single step puts on the bus.
pub proof fn lemma_wire_single(o: Op, dc: bool)
    ensures
        wire(seq![o], dc) == (match o {
            Op::Write(b) => b.map_values(|v: u8| (dc, v)),
            _ => Seq::empty(),
        }),
        level_after(seq![o], dc) == (match o {
            Op::DcLow => false,
            Op::DcHigh => true,
            _ => dc,
        }),
{
    let e = Seq::<Op>::empty();
    assert(seq![o].drop_first() =~= e);
    assert(wire(e, false) == Seq::<(bool, u8)>::empty());
    assert(wire(e, true) == Seq::<(bool, u8)>::empty());
    assert(level_after(e, false) == false);
    assert(level_after(e, true) == true);
    match o {
        Op::Write(b) => {
            assert(wire(seq![o], dc) =~= b.map_values(|v: u8| (dc, v)));
        },
        _ => {},
    }
}

/// Same streams joined give the same stream.
pub proof fn lemma_same_stream_append(a1: Seq<Op>, b1: Seq<Op>, a2: Seq<Op>, b2: Seq<Op>)
    requires
        same_stream(a1, a2),
        same_stream(b1, b2),
    ensures
        same_stream(a1 + b1, a2 + b2),
{
    assert forall|dc: bool| #[trigger] wire(a1 + b1, dc) == wire(a2 + b2, dc) && level_after(a1 + b1, dc)
        == level_after(a2 + b2, dc) by {
        lemma_wire_append(a1, b1, dc);
        lemma_wire_append(a2, b2, dc);
        assert(wire(a1, dc) == wire(a2, dc) && level_after(a1, dc) == level_after(a2, dc));
        let l = level_after(a1, dc);
        assert(wire(b1, l) == wire(b2, l) && level_after(b1, l) == level_after(b2, l));
    }
}

/// Bytes sent with the data/command line high.
pub open spec fn as_data(d: Seq<u8>) -> Seq<(bool, u8)> {
    d.map_values(|v: u8| (true, v))
}

/// Data bytes: the line goes high and the bytes go out as data.
pub proof fn lemma_wire_data(d: Seq<u8>, dc: bool)
    ensures
        wire(data(d), dc) == as_data(d),
        level_after(data(d), dc) == true,
{
    let o = data(d);
    let e = Seq::<Op>::empty();
    assert(o[0] == Op::DcHigh);
    assert(o.drop_first()[0] == Op::Write(d));
    assert(o.drop_first().drop_first() =~= e);
    assert(wire(e, true) == Seq::<(bool, u8)>::empty());
    assert(level_after(e, true) == true);
    assert(level_after(o.drop_first(), true) == level_after(e, true));
    assert(wire(o.drop_first(), true) == d.map_values(|v: u8| (true, v)) + wire(e, true));
    assert(wire(o.drop_first(), true) =~= d.map_values(|v: u8| (true, v)));
}

} // verus!
