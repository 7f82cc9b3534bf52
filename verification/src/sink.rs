//! Event dispatcher and device sink.  A fully parsed sample is pushed into
//! the sink as two axis writes and two button writes followed by exactly
//! one synchronization command, so that the four values become visible to
//! the device as a single atomic update.  The diagnostic Z axis is kept in
//! the sample but never forwarded.

use vstd::prelude::*;

use crate::parser::Sample;

verus! {

/// The two positional axes the sink exposes.
#[derive(Clone, Copy, Debug, PartialEq, Eq, Structural)]
pub enum AxisId {
    X,
    Y,
}

/// The two buttons the sink exposes.
#[derive(Clone, Copy, Debug, PartialEq, Eq, Structural)]
pub enum ButtonId {
    A,
    B,
}

/// One write issued to the device sink.
#[derive(Clone, Copy, Debug, PartialEq, Eq, Structural)]
pub enum SinkCommand {
    SetAxis(AxisId, i32),
    SetButton(ButtonId, i32),
    Sync,
}

/// Mathematical state of the sink: the last-dispatched slot values and the
/// history of every command issued, in order.
pub struct SinkView {
    pub axis_x: i32,
    pub axis_y: i32,
    pub button_a: i32,
    pub button_b: i32,
    pub log: Seq<SinkCommand>,
}

/// Device sink: the external device abstraction the core writes to.  The
/// slots hold the last-dispatched values; `log` records every command the
/// core issued, in order, which is exactly what a device would observe.
pub struct DeviceSink {
    pub axis_x: i32,
    pub axis_y: i32,
    pub button_a: i32,
    pub button_b: i32,
    pub log: Vec<SinkCommand>,
}

impl View for DeviceSink {
    type V = SinkView;

    closed spec fn view(&self) -> SinkView {
        SinkView {
            axis_x: self.axis_x,
            axis_y: self.axis_y,
            button_a: self.button_a,
            button_b: self.button_b,
            log: self.log@,
        }
    }
}

/// Effect of one command on the sink: the addressed slot takes the value
/// and the command is appended to the history.
pub open spec fn apply_command(v: SinkView, c: SinkCommand) -> SinkView {
    let logged = SinkView { log: v.log.push(c), ..v };
    match c {
        SinkCommand::SetAxis(AxisId::X, value) => SinkView { axis_x: value, ..logged },
        SinkCommand::SetAxis(AxisId::Y, value) => SinkView { axis_y: value, ..logged },
        SinkCommand::SetButton(ButtonId::A, value) => SinkView { button_a: value, ..logged },
        SinkCommand::SetButton(ButtonId::B, value) => SinkView { button_b: value, ..logged },
        SinkCommand::Sync => logged,
    }
}

/// The five commands one sample turns into: X and Y to the axis slots, A
/// and B to the buttons, then one synchronization.  Z is not forwarded.
pub open spec fn dispatch_commands(s: Sample) -> Seq<SinkCommand> {
    seq![
        SinkCommand::SetAxis(AxisId::X, s.x),
        SinkCommand::SetAxis(AxisId::Y, s.y),
        SinkCommand::SetButton(ButtonId::A, s.a),
        SinkCommand::SetButton(ButtonId::B, s.b),
        SinkCommand::Sync,
    ]
}

/// Effect of dispatching one sample on the sink.
pub open spec fn spec_dispatch(v: SinkView, s: Sample) -> SinkView {
    apply_command(
        apply_command(
            apply_command(
                apply_command(apply_command(v, SinkCommand::SetAxis(AxisId::X, s.x)),
                    SinkCommand::SetAxis(AxisId::Y, s.y)),
                SinkCommand::SetButton(ButtonId::A, s.a),
            ),
            SinkCommand::SetButton(ButtonId::B, s.b),
        ),
        SinkCommand::Sync,
    )
}

/// Dispatching a sample sets all four slots to the sample's values, leaves
/// nothing else of the slots, and issues exactly the five commands of
/// `dispatch_commands` — in particular exactly one synchronization — so
/// that the device never observes a torn mix of old and new values.
pub proof fn lemma_dispatch_atomic(v: SinkView, s: Sample)
    ensures
        spec_dispatch(v, s).axis_x == s.x,
        spec_dispatch(v, s).axis_y == s.y,
        spec_dispatch(v, s).button_a == s.a,
        spec_dispatch(v, s).button_b == s.b,
        spec_dispatch(v, s).log == v.log + dispatch_commands(s),
{
    assert(spec_dispatch(v, s).log =~= v.log + dispatch_commands(s));
}

impl DeviceSink {
    /// A fresh sink: all slots 0 and an empty history.
    pub fn new() -> (s: DeviceSink)
        ensures
            s@.axis_x == 0 && s@.axis_y == 0 && s@.button_a == 0 && s@.button_b == 0,
            s@.log == Seq::<SinkCommand>::empty(),
    {
        DeviceSink { axis_x: 0, axis_y: 0, button_a: 0, button_b: 0, log: Vec::new() }
    }

    /// Writes one axis slot.
    pub fn set_axis(&mut self, id: AxisId, value: i32)
        ensures
            final(self)@ == apply_command(old(self)@, SinkCommand::SetAxis(id, value)),
    {
        match id {
            AxisId::X => self.axis_x = value,
            AxisId::Y => self.axis_y = value,
        }
        self.log.push(SinkCommand::SetAxis(id, value));
    }

    /// Writes one button slot.
    pub fn set_button(&mut self, id: ButtonId, value: i32)
        ensures
            final(self)@ == apply_command(old(self)@, SinkCommand::SetButton(id, value)),
    {
        match id {
            ButtonId::A => self.button_a = value,
            ButtonId::B => self.button_b = value,
        }
        self.log.push(SinkCommand::SetButton(id, value));
    }

    /// Issues one synchronization command, making the values written since
    /// the last one visible as a single update.
    pub fn sync(&mut self)
        ensures
            final(self)@ == apply_command(old(self)@, SinkCommand::Sync),
    {
        self.log.push(SinkCommand::Sync);
    }
}

/// Pushes a fully parsed sample into the sink: axis X and Y, button A and
/// B, then exactly one synchronization.  Z is retained in the sample for
/// diagnostic use only and is not forwarded.
pub fn dispatch_sample(sink: &mut DeviceSink, sample: &Sample)
    ensures
        final(sink)@ == spec_dispatch(old(sink)@, *sample),
{
    sink.set_axis(AxisId::X, sample.x);
    sink.set_axis(AxisId::Y, sample.y);
    sink.set_button(ButtonId::A, sample.a);
    sink.set_button(ButtonId::B, sample.b);
    sink.sync();
}

} // verus!
