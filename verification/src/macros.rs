//! Recording sequences of commands and replaying them.
use vstd::prelude::*;

use crate::command::{Command, CommandView, is_printable, spec_command_string};

verus! {

/// The number of macro slots, one for each of the F? keys.
pub const NUMBER_OF_SLOTS: usize = 12;

/// A collection of macros, one for each of the F? keys, together with methods for recording and
/// accessing them.
#[derive(Debug)]
pub struct Macros {
    /// If a macro is currently being recorded, this is where its commands are stored.
    pub tmp: Vec<Command>,
    /// Where the macro that is currently being recorded is supposed to be stored. If this is
    /// `None`, that means that no macro is being recorded right now.
    pub target_slot: Option<u8>,
    /// The macros available to the user at the moment.
    pub slots: Vec<Vec<Command>>,
}

/// The views of a list of commands.
pub open spec fn command_views(v: Seq<Command>) -> Seq<CommandView> {
    v.map_values(|c: Command| c@)
}

/// The macros as a mathematical value.
pub struct MacrosView {
    pub tmp: Seq<CommandView>,
    pub target_slot: Option<u8>,
    pub slots: Seq<Seq<CommandView>>,
}

impl View for Macros {
    type V = MacrosView;

    open spec fn view(&self) -> MacrosView {
        MacrosView {
            tmp: command_views(self.tmp@),
            target_slot: self.target_slot,
            slots: self.slots@.map_values(|s: Vec<Command>| command_views(s@)),
        }
    }
}

/// The macros after storing the one being recorded, if any.
pub open spec fn spec_stop_recording(m: MacrosView) -> MacrosView {
    match m.target_slot {
        Some(slot) => MacrosView {
            tmp: Seq::empty(),
            target_slot: None,
            slots: m.slots.update(slot as int, m.tmp),
        },
        None => m,
    }
}

/// The textual form of the printable commands of a macro, one after the other.
pub open spec fn spec_macro_string(cmds: Seq<CommandView>) -> Seq<char>
    decreases cmds.len(),
{
    if cmds.len() == 0 {
        Seq::empty()
    } else {
        spec_macro_string(cmds.drop_last()) + if cmds.last() is Nothing {
            Seq::empty()
        } else {
            spec_command_string(cmds.last())
        }
    }
}

/// A copy of a list of commands.
fn copy_commands(v: &Vec<Command>) -> (r: Vec<Command>)
    ensures
        command_views(r@) == command_views(v@),
{
    let mut r: Vec<Command> = Vec::new();
    let n = v.len();
    for i in 0..n
        invariant
            n == v@.len(),
            command_views(r@) == command_views(v@.take(i as int)),
    {
        let ghost before = r@;
        r.push(v[i].clone());
        assert(command_views(r@) =~= command_views(before).push(v@[i as int]@));
        assert(v@.take(i + 1) =~= v@.take(i as int).push(v@[i as int]));
        assert(command_views(v@.take(i + 1)) =~= command_views(v@.take(i as int)).push(
            v@[i as int]@,
        ));
    }
    assert(v@.take(n as int) =~= v@);
    r
}

impl Macros {
    /// There are twelve slots, a macro is recorded only for one of them, and nothing is held
    /// back for a macro while none is recorded.
    pub open spec fn wf(&self) -> bool {
        &&& self.slots@.len() == NUMBER_OF_SLOTS
        &&& match self.target_slot {
            Some(slot) => slot < NUMBER_OF_SLOTS,
            None => self.tmp@.len() == 0,
        }
    }

    pub fn new() -> (r: Self)
        ensures
            r.wf(),
            r@.tmp.len() == 0,
            r@.target_slot is None,
            r@.slots == Seq::new(NUMBER_OF_SLOTS as nat, |i: int| Seq::<CommandView>::empty()),
    {
        let mut slots: Vec<Vec<Command>> = Vec::new();
        for i in 0..NUMBER_OF_SLOTS
            invariant
                slots@.len() == i,
                forall|j: int| 0 <= j < i ==> (#[trigger] slots@[j])@.len() == 0,
        {
            slots.push(Vec::new());
        }
        let r = Macros { tmp: Vec::new(), target_slot: None, slots };
        assert forall|j: int| 0 <= j < NUMBER_OF_SLOTS implies #[trigger] r@.slots[j]
            =~= Seq::<CommandView>::empty() by {
            assert(r.slots@[j]@.len() == 0);
        }
        assert(r@.slots =~= Seq::new(NUMBER_OF_SLOTS as nat, |i: int| Seq::<CommandView>::empty()));
        assert(r@.tmp =~= Seq::<CommandView>::empty());
        r
    }

    /// Select the target slot. A macro that was being recorded is stored first.
    pub fn start_recording(&mut self, slot: u8)
        requires
            old(self).wf(),
            slot < NUMBER_OF_SLOTS,
        ensures
            final(self).wf(),
            final(self)@ == (MacrosView {
                target_slot: Some(slot),
                ..spec_stop_recording(old(self)@)
            }),
            final(self)@.tmp.len() == 0,
    {
        self.stop_recording();
        self.target_slot = Some(slot);
    }

    /// Append a command to the macro currently being recorded. Return true if and only if a
    /// target slot has been selected, that is, if `start_recording` has been called before.
    pub fn push(&mut self, cmd: &Command) -> (r: bool)
        requires
            old(self).wf(),
        ensures
            final(self).wf(),
            r == (old(self)@.target_slot is Some),
            final(self)@ == if r {
                MacrosView { tmp: old(self)@.tmp.push(cmd@), ..old(self)@ }
            } else {
                old(self)@
            },
    {
        if self.target_slot.is_some() {
            let ghost before = self.tmp@;
            self.tmp.push(cmd.clone());
            assert(command_views(self.tmp@) =~= command_views(before).push(cmd@));
            true
        } else {
            false
        }
    }

    /// We are done recording the macro and can store it in the desired slot. Returns the number
    /// of commands stored.
    pub fn stop_recording(&mut self) -> (r: usize)
        requires
            old(self).wf(),
        ensures
            final(self).wf(),
            final(self)@ == spec_stop_recording(old(self)@),
            r == if old(self)@.target_slot is Some {
                old(self)@.tmp.len()
            } else {
                0
            },
    {
        if let Some(slot) = self.target_slot {
            let tmp = copy_commands(&self.tmp);
            self.tmp = Vec::new();
            let len = tmp.len();
            let ghost before = self.slots@;
            self.slots.set(slot as usize, tmp);
            self.target_slot = None;
            proof {
                assert(self@.slots =~= old(self)@.slots.update(slot as int, old(self)@.tmp));
                assert(self@.tmp =~= Seq::<CommandView>::empty());
            }
            len
        } else {
            0
        }
    }

    /// Retrieve the macro stored at the given slot; nothing while it is being recorded.
    pub fn get(&self, slot: u8) -> (r: &[Command])
        requires
            self.wf(),
            slot < NUMBER_OF_SLOTS,
        ensures
            command_views(r@) == if self.target_slot == Some(slot) {
                Seq::<CommandView>::empty()
            } else {
                self@.slots[slot as int]
            },
    {
        if self.target_slot == Some(slot) {
            let r: &[Command] = &[];
            assert(command_views(r@) =~= Seq::<CommandView>::empty());
            r
        } else {
            self.slots[slot as usize].as_slice()
        }
    }

    /// The textual form of the macro stored at the given slot.
    pub fn to_string(&self, slot: u8) -> (s: String)
        requires
            self.wf(),
            slot < NUMBER_OF_SLOTS,
            forall|i: int|
                0 <= i < self@.slots[slot as int].len() && !(self@.slots[slot as int][i] is Nothing)
                    ==> is_printable(#[trigger] self@.slots[slot as int][i]),
        ensures
            s@ == spec_macro_string(self@.slots[slot as int]),
    {
        let cmds = &self.slots[slot as usize];
        let ghost cv = self@.slots[slot as int];
        assert(cv == command_views(cmds@));
        let mut result = String::new();
        let n = cmds.len();
        for i in 0..n
            invariant
                n == cmds@.len(),
                cv == command_views(cmds@),
                forall|k: int|
                    0 <= k < cv.len() && !(cv[k] is Nothing) ==> is_printable(#[trigger] cv[k]),
                result@ == spec_macro_string(cv.take(i as int)),
        {
            assert(cv.take(i + 1).drop_last() =~= cv.take(i as int));
            assert(cmds@[i as int]@ == cv[i as int]);
            if !cmds[i].is_empty() {
                let t = cmds[i].to_string();
                result.append(t.as_str());
            }
        }
        assert(cv.take(n as int) =~= cv);
        result
    }
}

} // verus!
