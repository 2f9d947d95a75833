//! A game: a collection, the level being played, the state of the collection that is saved, and
//! the macros; commands from the front end are carried out here.
use vstd::prelude::*;

use crate::collection::{Collection, level_views};
use crate::command::{Command, CommandView};
use crate::current_level::{CurrentLevel, Play, play_move, play_failed, play_undo, play_redo,
    quiet, record_all, play_tries, loaded_history};
use crate::current_level::rules::{Entities, misplaced, helper_move, spec_run, steps_left, has_crate, free, Board};
use crate::current_level::graph::crate_reachable;
use crate::direction::Direction;
use crate::event::Event;
use crate::level::{Level, LevelView};
use crate::macros::{Macros, MacrosView, NUMBER_OF_SLOTS, command_views, spec_stop_recording};
use crate::position::Position;
use crate::move_::Move;
use crate::save::{CollectionState, LevelState, UpdateResponse};
use crate::save::collection_state::{spec_update_levels, spec_update_response, spec_levels_finished};
use crate::save::level_state::spec_level_state_of;

verus! {

/// Why the game cannot go on to the next level.
#[derive(Debug, PartialEq, Eq, Structural, Clone, Copy)]
pub enum NextLevelError {
    /// Tried to move to the next levels when the current one has not been solved.
    LevelNotFinished,
    /// Cannot move past the last level of a collection.
    EndOfCollection,
}

/// What the game hands to the front end and asks of the disc, in order.
pub enum Output {
    /// An event for the front end.
    Event(Event),
    /// Write the state of the collection to disc. With a response, a level has just been
    /// finished: report it, or report the level as solved for the first time if writing fails.
    /// Without one, the game cannot go on if writing fails.
    SaveState { report: Option<UpdateResponse> },
}

/// The deepest nesting of macros that execute macros: a chain of distinct macros is never
/// longer than the number of slots, so only a macro that (through others) executes itself
/// goes deeper.
pub const MAX_MACRO_DEPTH: usize = 13;

/// A command the game can carry out: collections are loaded by the caller, and macros sit in one
/// of the slots.
pub open spec fn command_ok(c: CommandView) -> bool {
    &&& !(c is LoadCollection)
    &&& match c {
        CommandView::RecordMacro(slot) => slot < NUMBER_OF_SLOTS,
        CommandView::ExecuteMacro(slot) => slot < NUMBER_OF_SLOTS,
        _ => true,
    }
}

/// The level freshly started from its description.
pub open spec fn fresh(cl: CurrentLevel, l: LevelView) -> bool {
    &&& cl.wf()
    &&& cl.columns == l.columns
    &&& cl.rows == l.rows
    &&& cl.background@ == l.background
    &&& cl.entities() == (Entities { crates: l.crates, worker: l.worker })
    &&& cl.history().actions.len() == 0
    &&& cl.history().performed == 0
    &&& cl.pending().len() == 0
}

/// The output announcing that level number `rank` starts.
pub open spec fn announces(o: Output, rank: nat, l: LevelView) -> bool {
    match o {
        Output::Event(
            Event::InitialLevelState {
                rank: r,
                columns,
                rows,
                background,
                worker_position,
                worker_direction,
                crates,
            },
        ) => r == rank && columns == l.columns && rows == l.rows && background@ == l.background
            && worker_position == l.worker && worker_direction == Direction::Left && crates@
            == l.crates,
        _ => false,
    }
}

/// Events handed on as outputs.
pub open spec fn events_out(evs: Seq<Event>) -> Seq<Output> {
    evs.map_values(|e: Event| Output::Event(e))
}

/// A game: a collection, the level being played, the saved state of the collection, and the
/// macros.
pub struct Game {
    pub name: String,
    /// The rank of the current level, counting from 1.
    pub rank: usize,
    /// A copy of one of the levels.
    pub current_level: CurrentLevel,
    pub collection: Collection,
    /// What levels have been solved and with how many moves/pushes.
    pub state: CollectionState,
    pub macros: Macros,
    /// What the front end and the disc have not been handed yet.
    pub outputs: Vec<Output>,
}

impl Game {
    pub open spec fn levels(&self) -> Seq<LevelView> {
        level_views(self.collection.levels@)
    }

    /// The collection has levels, each a proper level; the current level is one of them and is
    /// played properly; the macros hold only commands the game can carry out.
    pub open spec fn wf(&self) -> bool {
        &&& 1 <= self.collection.levels@.len() < usize::MAX
        &&& forall|i: int|
            0 <= i < self.collection.levels@.len() ==> (#[trigger] self.collection.levels@[i]).wf()
        &&& self.collection.number_of_levels == self.collection.levels@.len()
        &&& 1 <= self.rank <= self.collection.levels@.len()
        &&& self.current_level.wf()
        &&& self.current_level.pending().len() == 0
        &&& self.macros.wf()
        &&& forall|i: int|
            0 <= i < self.macros@.tmp.len() ==> command_ok(#[trigger] self.macros@.tmp[i])
        &&& forall|s: int, i: int|
            0 <= s < NUMBER_OF_SLOTS && 0 <= i < self.macros@.slots[s].len() ==> command_ok(
                #[trigger] self.macros@.slots[s][i],
            )
    }

    /// Only the level being played, the saved state, the macros and the outputs change.
    pub open spec fn same_collection(&self, other: &Game) -> bool {
        &&& self.name == other.name
        &&& self.collection == other.collection
    }
}

} // verus!

verus! {

/// Is the command one that manages levels?
pub open spec fn is_level_management(c: CommandView) -> bool {
    c is ResetLevel || c is NextLevel || c is PreviousLevel || c is Save || c is LoadCollection
}

/// What moving the worker towards `to` does, from `s` to `t`, and whether it succeeds
/// (`succeeded`). Without pushing, a cell that is not a neighbour is reached along `path`, a
/// shortest path through free cells, if there is one (otherwise, also where `to` is not free,
/// `Event::NoPathFound` is reported); otherwise
/// the worker goes straight towards `to` until it is there or blocked, pushing crates if allowed;
/// a cell in neither the same row nor the same column cannot be reached while pushing.
pub open spec fn move_to_effect(
    b: Board,
    s: Play,
    to: Position,
    may_push_crate: bool,
    t: Play,
    succeeded: bool,
    path: Seq<Move>,
) -> bool {
    let e = s.entities;
    let h = s.history;
    if !may_push_crate && crate::current_level::pathfinding::far_apart(e.worker, to) {
        if succeeded {
            &&& crate::current_level::pathfinding::walk_from(b, e, e.worker, path) == Some(to)
            &&& forall|ms2: Seq<Move>|
                crate::current_level::pathfinding::walk_from(b, e, e.worker, ms2) == Some(to) ==> path.len() <= ms2.len()
            &&& t == (Play {
                entities: Entities { crates: e.crates, worker: to },
                history: record_all(h, path),
                events: s.events + crate::current_level::pathfinding::walk_events(b, e, e.worker, path),
            })
        } else {
            (forall|ms: Seq<Move>| crate::current_level::pathfinding::walk_from(b, e, e.worker, ms) != Some(to)) && t == (Play {
                entities: e,
                history: h,
                events: s.events.push(Event::NoPathFound),
            })
        }
    } else {
        &&& succeeded
        &&& match crate::direction::spec_direction(e.worker, to) {
            crate::direction::DirectionResult::Neighbour { direction } => {
                let run = crate::current_level::rules::spec_run(
                    b,
                    e,
                    direction,
                    may_push_crate,
                    Some(to),
                    crate::current_level::rules::steps_left(b, e.worker, direction),
                );
                t == (Play {
                    entities: run.entities,
                    history: record_all(h, run.moves),
                    events: s.events + run.events,
                })
            },
            crate::direction::DirectionResult::SamePosition => t == s,
            crate::direction::DirectionResult::Other => t == (Play {
                entities: e,
                history: h,
                events: s.events.push(Event::NoPathfindingWhilePushing),
            }),
        }
    }
}

/// Was the level of the given rank (counting from 1) solved in an earlier session?
pub open spec fn solved_before(st: CollectionState, rank: int) -> bool {
    1 <= rank <= st.levels@.len() && st.levels_view()[rank - 1] is Finished
}

/// Which level a command that manages levels leaves the game at, and how that level starts:
/// resetting starts the level afresh; the next level is started if the current one is solved
/// (now or before) and not the last; the previous one unless this is the first; saving stays.
pub open spec fn level_effect(c: CommandView, g: Game, rank: int, cl: CurrentLevel) -> bool {
    let n = g.rank as int;
    let solved = misplaced(g.current_level.board(), g.current_level.entities().crates) == 0
        || solved_before(g.state, n);
    match c {
        CommandView::ResetLevel => rank == n && fresh(cl, g.levels()[n - 1]),
        CommandView::NextLevel => if n < g.collection.levels@.len() && solved {
            rank == n + 1 && fresh(cl, g.levels()[n])
        } else {
            rank == n && cl == g.current_level
        },
        CommandView::PreviousLevel => if n >= 2 {
            rank == n - 1 && fresh(cl, g.levels()[n - 2])
        } else {
            rank == n && cl == g.current_level
        },
        CommandView::Save => rank == n && cl == g.current_level,
        _ => true,
    }
}

/// What a command that manages levels hands on: a level that is started (afresh or another one)
/// is announced after the outputs so far; saving a level that is not finished hands on that the
/// state was saved; otherwise nothing is handed on.
pub open spec fn level_outputs(c: CommandView, g: Game, rank: int, outputs: Seq<Output>) -> bool {
    let out0 = g.outputs@;
    let finished = misplaced(g.current_level.board(), g.current_level.entities().crates) == 0;
    &&& c is Save ==> outputs == if finished {
        out0
    } else {
        out0.push(Output::SaveState { report: None })
    }
    &&& (c is ResetLevel || rank != g.rank) ==> {
        &&& outputs.len() == out0.len() + 1
        &&& outputs.take(out0.len() as int) == out0
        &&& announces(outputs.last(), rank as nat, g.levels()[rank - 1])
    }
    &&& (!(c is ResetLevel) && !(c is Save) && rank == g.rank) ==> outputs == out0
}

/// What recording or storing a macro does to the macros: recording stores the macro being
/// recorded (if any) and starts recording into the given slot; storing puts the commands
/// recorded into their slot and stops recording.
pub open spec fn macro_effect(c: CommandView, before: MacrosView, after: MacrosView) -> bool {
    match c {
        CommandView::RecordMacro(slot) => after == (MacrosView {
            target_slot: Some(slot),
            ..spec_stop_recording(before)
        }),
        CommandView::StoreMacro => after == spec_stop_recording(before),
        _ => true,
    }
}

/// Is the command a movement of the worker (or the undoing or redoing of one)?
pub open spec fn is_movement(c: CommandView) -> bool {
    c is Step || c is WalkTillObstacle || c is PushTillObstacle || c is WalkTowards
        || c is PushTowards || c is WalkToPosition || c is MoveCrateToTarget || c is Undo
        || c is Redo
}

/// What a movement makes of the level, from `s` to `t`, with the events it reports after those
/// of `s`. Moving towards a cell goes along some shortest path when path finding is used (see
/// `move_to_effect`); moving a crate to a target pushes it along some path with as few pushes as
/// possible, as far as the worker can get behind it (see `push_outcome`).
pub open spec fn movement_play(c: CommandView, b: Board, s: Play, t: Play) -> bool {
    let e = s.entities;
    let run = |d: Direction, may_push: bool|
        {
            let r = spec_run(b, e, d, may_push, None, steps_left(b, e.worker, d));
            Play {
                entities: r.entities,
                history: record_all(s.history, r.moves),
                events: s.events + r.events,
            }
        };
    match c {
        CommandView::Step { direction } => t == match play_move(
            b,
            s,
            helper_move(e, direction, true),
        ) {
            Some(s2) => s2,
            None => play_failed(b, s, helper_move(e, direction, true)),
        },
        CommandView::WalkTillObstacle { direction } => t == run(direction, false),
        CommandView::PushTillObstacle { direction } => t == run(direction, true),
        CommandView::Undo => t == play_undo(s),
        CommandView::Redo => t == play_redo(b, s),
        CommandView::WalkTowards { position } => exists|found: bool, path: Seq<Move>|
            move_to_effect(b, s, position, false, t, found, path),
        CommandView::PushTowards { position } => exists|found: bool, path: Seq<Move>|
            move_to_effect(b, s, position, true, t, found, path),
        CommandView::WalkToPosition { position } => exists|found: bool, path: Seq<Move>|
            move_to_effect(b, s, position, false, t, found, path),
        CommandView::MoveCrateToTarget { from, to } => {
            let valid = from != to && has_crate(e, from) && free(b, e, to);
            &&& (!valid || !crate_reachable(b, e, from, to)) ==> t == s
            &&& (valid && crate_reachable(b, e, from, to)) ==> exists|ms: Seq<Move>, pushed: bool|
                crate::current_level::graph::crate_walk(b, e, from, ms) == Some(to) && (forall|
                    ms2: Seq<Move>,
                |
                    crate::current_level::graph::crate_walk(b, e, from, ms2) == Some(to) ==> ms.len()
                        <= ms2.len()) && #[trigger] crate::current_level::graph::push_outcome(
                    b,
                    s,
                    from,
                    ms,
                    pushed,
                    t,
                )
        },
        _ => t == s,
    }
}

/// How a movement changes the worker, the crates and the log of moves (the events aside).
pub open spec fn movement_effect(c: CommandView, before: CurrentLevel, after: CurrentLevel) -> bool {
    &&& after.same_board(&before)
    &&& exists|t: Play|
        movement_play(c, before.board(), before.play(), t) && quiet(after.play()) == quiet(t)
}

/// What carrying out the command `c` makes of the game, from `before` to `after`, when it is
/// part of a macro being executed (`executing_macro`) or not, and macros may still be nested
/// `depth` deep. A level that is finished takes nothing but level management; a movement has its
/// effect on the level and hands on its events; the command is recorded in the macro being
/// recorded; recording and storing a macro have their effect on the macros; executing a macro
/// carries out its commands; and a level that gets finished stops the recording and is saved.
pub open spec fn command_effect(
    c: CommandView,
    executing_macro: bool,
    depth: nat,
    before: Game,
    after: Game,
) -> bool {
    let old_finished = misplaced(
        before.current_level.board(),
        before.current_level.entities().crates,
    ) == 0;
    &&& step_effect(c, executing_macro, before, after)
    &&& (!old_finished && c is ExecuteMacro) ==> exists|sent: Game, mid: Game|
        #![trigger sent_game(c, executing_macro, before, sent), finishing(mid, after)]
        {
            &&& sent_game(c, executing_macro, before, sent)
            &&& if depth > 0 {
                runs_commands(macro_commands(sent.macros@, c->ExecuteMacro_0), sent, mid)
            } else {
                mid == sent
            }
            &&& finishing(mid, after)
        }
}

/// What carrying out the command `c` makes of the game, as `command_effect` says, but for what
/// executing a macro does with the macro's commands.
pub open spec fn step_effect(c: CommandView, executing_macro: bool, before: Game, after: Game) -> bool {
    let old_finished = misplaced(
        before.current_level.board(),
        before.current_level.entities().crates,
    ) == 0;
    let new_finished = misplaced(after.current_level.board(), after.current_level.entities().crates)
        == 0;
    &&& after.wf()
    &&& after.same_collection(&before)
    &&& before.state.collection_solved ==> after.state.collection_solved
    &&& (old_finished && !is_level_management(c)) ==> {
        &&& after.current_level.entities() == before.current_level.entities()
        &&& after.current_level.history() == before.current_level.history()
        &&& after.rank == before.rank
    }
    &&& (!old_finished && is_movement(c)) ==> movement_effect(
        c,
        before.current_level,
        after.current_level,
    ) && after.rank == before.rank
    &&& (!old_finished && is_movement(c)) ==> ({
        let out0 = before.outputs@;
        let out1 = after.outputs@;
        exists|t: Play|
            #[trigger] movement_play(
                c,
                before.current_level.board(),
                before.current_level.play(),
                t,
            ) && quiet(after.current_level.play()) == quiet(t) && out1.len() >= out0.len()
                + t.events.len() && out1.take((out0.len() + t.events.len()) as int) == out0
                + events_out(t.events) && (!new_finished ==> out1 == out0 + events_out(t.events))
    })
    &&& is_level_management(c) ==> level_effect(c, before, after.rank as int, after.current_level)
    &&& (!old_finished && (c is RecordMacro || c is StoreMacro)) ==> macro_effect(
        c,
        before.macros@,
        after.macros@,
    ) && after.current_level == before.current_level
    &&& new_finished ==> {
        &&& after.outputs@.len() > 0
        &&& after.outputs@.last() matches Output::SaveState { report: Some(_) }
        &&& (after.rank == after.collection.levels@.len() ==> after.state.collection_solved)
    }
    &&& !(c is ExecuteMacro) ==> saved_effect(c, before, after)
    &&& old_finished ==> after.macros@ == before.macros@
    &&& (!old_finished && !(c is ExecuteMacro || c is RecordMacro || c is StoreMacro))
        ==> after.macros@ == if new_finished {
        spec_stop_recording(sent_macros(c, executing_macro, before.macros@))
    } else {
        sent_macros(c, executing_macro, before.macros@)
    }
}

/// The macros after the command `c` is sent to them: it is recorded in the macro being recorded,
/// unless it is part of a macro being executed, changes the macros, or is empty.
pub open spec fn sent_macros(c: CommandView, executing_macro: bool, m: MacrosView) -> MacrosView {
    if !executing_macro && !crate::command::spec_changes_macros(c) && !(c is Nothing)
        && m.target_slot is Some {
        MacrosView { tmp: m.tmp.push(c), ..m }
    } else {
        m
    }
}

/// `sent` is the game `before` with the command `c` sent to the macros.
pub open spec fn sent_game(c: CommandView, executing_macro: bool, before: Game, sent: Game) -> bool {
    &&& sent.wf()
    &&& sent.name == before.name
    &&& sent.rank == before.rank
    &&& sent.current_level == before.current_level
    &&& sent.collection == before.collection
    &&& sent.state == before.state
    &&& sent.outputs == before.outputs
    &&& sent.macros@ == sent_macros(c, executing_macro, before.macros@)
}

/// What happens once a command is carried out on a level that was not finished, from `mid` to
/// `after`: nothing if the level is still not finished; otherwise the macro being recorded is
/// stored (and reported, if it holds commands), the collection counts as solved if this is its
/// last level, and the level is saved, which is reported last.
pub open spec fn finishing(mid: Game, after: Game) -> bool {
    let finished = misplaced(mid.current_level.board(), mid.current_level.entities().crates) == 0;
    let now = spec_level_state_of(mid.current_level);
    let index = mid.rank - 1;
    let out = if mid.macros@.target_slot is Some && mid.macros@.tmp.len() != 0 {
        mid.outputs@.push(Output::Event(Event::MacroDefined))
    } else {
        mid.outputs@
    };
    if !finished {
        after == mid
    } else {
        &&& after.wf()
        &&& after.same_collection(&mid)
        &&& after.current_level == mid.current_level
        &&& after.rank == mid.rank
        &&& after.macros@ == spec_stop_recording(mid.macros@)
        &&& after.state.levels_view() == spec_update_levels(mid.state.levels_view(), index, now)
        &&& after.state.collection_solved == (mid.state.collection_solved || mid.rank
            == mid.collection.number_of_levels)
        &&& after.outputs@ == out.push(
            Output::SaveState { report: Some(spec_update_response(mid.state.levels_view(), index, now)) },
        )
    }
}

/// What a command other than executing a macro does to the saved state of the levels. A level
/// that is finished afterwards is recorded in the saved state (its solution kept if it is the
/// best so far), and how that went is reported last. Otherwise saving records how far the level
/// has got, and the other commands leave the saved state as it is.
pub open spec fn saved_effect(c: CommandView, before: Game, after: Game) -> bool {
    let levels = before.state.levels_view();
    let new_finished = misplaced(after.current_level.board(), after.current_level.entities().crates)
        == 0;
    let now = spec_level_state_of(after.current_level);
    let index = after.rank - 1;
    if new_finished {
        &&& after.state.levels_view() == spec_update_levels(levels, index, now)
        &&& after.outputs@.last() == Output::SaveState {
            report: Some(spec_update_response(levels, index, now)),
        }
    } else if c is Save {
        after.state.levels_view() == spec_update_levels(
            levels,
            before.rank - 1,
            spec_level_state_of(before.current_level),
        )
    } else {
        after.state.levels_view() == levels
    }
}

/// The commands that executing the macro in `slot` carries out: those stored there, and none
/// while that slot is being recorded.
pub open spec fn macro_commands(m: MacrosView, slot: u8) -> Seq<CommandView> {
    if m.target_slot == Some(slot) {
        Seq::empty()
    } else {
        m.slots[slot as int]
    }
}

/// `games` are the states of the game before and after each of the commands `cs`, carried out
/// one after the other as part of a macro (each as `step_effect` says).
pub open spec fn command_chain(cs: Seq<CommandView>, games: Seq<Game>) -> bool {
    &&& games.len() == cs.len() + 1
    &&& forall|k: int|
        0 <= k < cs.len() ==> #[trigger] step_effect(cs[k], true, games[k], games[k + 1])
}

/// Carrying out the commands `cs` one after the other, as part of a macro, leads from `before`
/// to `after`.
pub open spec fn runs_commands(cs: Seq<CommandView>, before: Game, after: Game) -> bool {
    exists|games: Seq<Game>|
        #[trigger] command_chain(cs, games) && games[0] == before && games.last() == after
}

impl Game {
    /// Hand the events of the current level on as outputs.
    fn drain_level_events(&mut self)
        requires
            old(self).current_level.wf(),
        ensures
            final(self).outputs@ == old(self).outputs@ + events_out(old(self).current_level.pending()),
            final(self).current_level.pending().len() == 0,
            final(self).current_level.wf(),
            final(self).current_level.same_board(&old(self).current_level),
            final(self).current_level.dynamic == old(self).current_level.dynamic,
            final(self).current_level.undo == old(self).current_level.undo,
            final(self).rank == old(self).rank,
            final(self).name == old(self).name,
            final(self).collection == old(self).collection,
            final(self).state == old(self).state,
            final(self).macros == old(self).macros,
    {
        let mut evs = self.current_level.take_events();
        let ghost all = evs@;
        assert(evs@.len() == evs.len());
        let mut outs: Vec<Output> = Vec::new();
        let mut k: usize = 0;
        assert(all.skip(0) =~= all);
        assert(events_out(all.take(0)) =~= Seq::<Output>::empty());
        while evs.len() > 0
            invariant
                all.len() <= usize::MAX,
                k + evs@.len() == all.len(),
                evs@ == all.skip(k as int),
                outs@ == events_out(all.take(k as int)),
            decreases evs@.len(),
        {
            let e = evs.remove(0);
            proof {
                assert(all[k as int] == e);
                assert(all.skip(k as int).remove(0) =~= all.skip(k + 1));
            }
            outs.push(Output::Event(e));
            proof {
                assert(events_out(all.take(k + 1)) =~= events_out(all.take(k as int)).push(
                    Output::Event(e),
                ));
            }
            k = k + 1;
        }
        assert(all.take(k as int) =~= all);
        self.outputs.append(&mut outs);
    }

    /// Start level number `rank` afresh and announce it.
    fn set_current_level(&mut self, rank: usize)
        requires
            1 <= rank <= old(self).collection.levels@.len(),
            old(self).collection.levels@[rank - 1].wf(),
        ensures
            fresh(final(self).current_level, old(self).levels()[rank - 1]),
            final(self).rank == rank,
            final(self).outputs@.len() == old(self).outputs@.len() + 1,
            final(self).outputs@.take(old(self).outputs@.len() as int) == old(self).outputs@,
            announces(final(self).outputs@.last(), rank as nat, old(self).levels()[rank - 1]),
            final(self).name == old(self).name,
            final(self).collection == old(self).collection,
            final(self).state == old(self).state,
            final(self).macros == old(self).macros,
    {
        let lvl = self.get_level(rank);
        assert(lvl.wf());
        self.current_level = CurrentLevel::from(&lvl);
        self.rank = rank;
        let background = lvl.background.clone();
        let crates = lvl.crates.clone();
        assert(background@ =~= lvl.background@);
        assert(crates@ =~= lvl.crates@);
        let e = Event::InitialLevelState {
            rank,
            columns: lvl.columns,
            rows: lvl.rows,
            background,
            worker_position: lvl.worker_position,
            worker_direction: Direction::Left,
            crates,
        };
        let ghost o0 = self.outputs@;
        self.outputs.push(Output::Event(e));
        assert(self.outputs@.take(o0.len() as int) =~= o0);
    }

    /// A clean copy of level number `rank`.
    fn get_level(&self, rank: usize) -> (r: Level)
        requires
            1 <= rank <= self.collection.levels@.len(),
        ensures
            r@ == self.levels()[rank - 1],
    {
        self.collection.levels[rank - 1].clone()
    }

    /// Replace the current level by a clean copy.
    fn reset_level(&mut self)
        requires
            old(self).wf(),
        ensures
            fresh(final(self).current_level, old(self).levels()[old(self).rank - 1]),
            final(self).rank == old(self).rank,
            final(self).outputs@.len() == old(self).outputs@.len() + 1,
            final(self).outputs@.take(old(self).outputs@.len() as int) == old(self).outputs@,
            announces(final(self).outputs@.last(), old(self).rank as nat, old(self).levels()[old(self).rank - 1]),
            final(self).name == old(self).name,
            final(self).collection == old(self).collection,
            final(self).state == old(self).state,
            final(self).macros == old(self).macros,
    {
        let rank = self.rank;
        self.set_current_level(rank);
    }

    /// If the current level is finished now, or was before, switch to the next level.
    pub fn next_level(&mut self) -> (r: Result<(), NextLevelError>)
        requires
            old(self).wf(),
        ensures
            final(self).wf(),
            final(self).same_collection(old(self)),
            final(self).state == old(self).state,
            final(self).macros == old(self).macros,
            ({
                let n = old(self).rank as int;
                let last = n >= old(self).collection.levels@.len();
                let solved = misplaced(
                    old(self).current_level.board(),
                    old(self).current_level.entities().crates,
                ) == 0 || solved_before(old(self).state, n);
                if !last && solved {
                    &&& r is Ok
                    &&& final(self).rank == n + 1
                    &&& fresh(final(self).current_level, old(self).levels()[n])
                    &&& final(self).outputs@.len() == old(self).outputs@.len() + 1
                    &&& final(self).outputs@.take(old(self).outputs@.len() as int)
                        == old(self).outputs@
                    &&& announces(final(self).outputs@.last(), (n + 1) as nat, old(self).levels()[n])
                } else {
                    &&& r == Err::<(), NextLevelError>(
                        if last {
                            NextLevelError::EndOfCollection
                        } else {
                            NextLevelError::LevelNotFinished
                        },
                    )
                    &&& final(self).rank == old(self).rank
                    &&& final(self).current_level == old(self).current_level
                    &&& final(self).outputs == old(self).outputs
                }
            }),
    {
        let n = self.rank;
        let is_last_level = n >= self.collection.number_of_levels;
        let solved_now = self.current_level.is_finished();
        let solved_before = 1 <= n && n <= self.state.number_of_levels()
            && self.state.levels[n - 1].is_finished();
        proof {
            if 1 <= n && n <= self.state.levels@.len() {
                assert(self.state.levels_view()[n - 1] == self.state.levels@[n - 1]@);
            }
        }
        if !is_last_level && (solved_now || solved_before) {
            self.set_current_level(n + 1);
            Ok(())
        } else if is_last_level {
            Err(NextLevelError::EndOfCollection)
        } else {
            Err(NextLevelError::LevelNotFinished)
        }
    }

    /// Go to the previous level unless this is already the first level in this collection.
    pub fn previous_level(&mut self) -> (r: Result<(), ()>)
        requires
            old(self).wf(),
        ensures
            final(self).wf(),
            final(self).same_collection(old(self)),
            final(self).state == old(self).state,
            final(self).macros == old(self).macros,
            if old(self).rank < 2 {
                &&& r is Err
                &&& final(self).rank == old(self).rank
                &&& final(self).current_level == old(self).current_level
                &&& final(self).outputs == old(self).outputs
            } else {
                &&& r is Ok
                &&& final(self).rank == old(self).rank - 1
                &&& fresh(final(self).current_level, old(self).levels()[old(self).rank - 2])
                &&& final(self).outputs@.len() == old(self).outputs@.len() + 1
                &&& final(self).outputs@.take(old(self).outputs@.len() as int) == old(self).outputs@
                &&& announces(
                    final(self).outputs@.last(),
                    (old(self).rank - 1) as nat,
                    old(self).levels()[old(self).rank - 2],
                )
            },
    {
        let n = self.rank;
        if n < 2 {
            Err(())
        } else {
            self.set_current_level(n - 1);
            Ok(())
        }
    }

    /// Record the state of the current level in the state of the collection and ask for the
    /// state to be written to disc. `report` says whether the level has just been finished.
    fn save(&mut self, report: bool) -> (r: UpdateResponse)
        requires
            old(self).wf(),
        ensures
            final(self).wf(),
            final(self).same_collection(old(self)),
            final(self).rank == old(self).rank,
            final(self).current_level == old(self).current_level,
            final(self).macros == old(self).macros,
            final(self).state.levels_view() == spec_update_levels(
                old(self).state.levels_view(),
                old(self).rank - 1,
                spec_level_state_of(old(self).current_level),
            ),
            r == spec_update_response(
                old(self).state.levels_view(),
                old(self).rank - 1,
                spec_level_state_of(old(self).current_level),
            ),
            final(self).state.levels_solved == spec_levels_finished(final(self).state.levels_view()) as u32,
            final(self).state.collection_solved == old(self).state.collection_solved,
            final(self).outputs@ == old(self).outputs@.push(
                Output::SaveState {
                    report: if report {
                        Some(r)
                    } else {
                        None
                    },
                },
            ),
    {
        let level_state = LevelState::from(&self.current_level);
        let response = self.state.update(self.rank - 1, level_state);
        self.state.save();
        self.outputs.push(
            Output::SaveState {
                report: if report {
                    Some(response)
                } else {
                    None
                },
            },
        );
        response
    }
}

} // verus!

verus! {


impl Game {
    /// Record the command in the macro being recorded, unless it is part of a macro being
    /// executed, changes the macros, or is empty.
    fn send_command_to_macros(&mut self, command: &Command, executing_macro: bool)
        requires
            old(self).wf(),
            command_ok(command@),
        ensures
            final(self).wf(),
            final(self).same_collection(old(self)),
            final(self).rank == old(self).rank,
            final(self).current_level == old(self).current_level,
            final(self).state == old(self).state,
            final(self).outputs == old(self).outputs,
            final(self).macros@ == sent_macros(command@, executing_macro, old(self).macros@),
    {
        if !executing_macro && !command.changes_macros() && !command.is_empty() {
            self.macros.push(command);
        }
    }

    /// Carry out a command that manages levels.
    fn manage_level(&mut self, command: &Command)
        requires
            old(self).wf(),
            is_level_management(command@),
            command_ok(command@),
        ensures
            final(self).wf(),
            final(self).same_collection(old(self)),
            final(self).macros == old(self).macros,
            final(self).state.collection_solved == old(self).state.collection_solved,
            level_effect(command@, *old(self), final(self).rank as int, final(self).current_level),
            level_outputs(command@, *old(self), final(self).rank as int, final(self).outputs@),
            final(self).state.levels_view() == if command@ is Save && misplaced(
                old(self).current_level.board(),
                old(self).current_level.entities().crates,
            ) != 0 {
                spec_update_levels(
                    old(self).state.levels_view(),
                    old(self).rank - 1,
                    spec_level_state_of(old(self).current_level),
                )
            } else {
                old(self).state.levels_view()
            },
    {
        let is_finished = self.current_level.is_finished();
        match command {
            Command::ResetLevel => self.reset_level(),
            Command::NextLevel => {
                let _ = self.next_level();
            },
            Command::PreviousLevel => {
                let _ = self.previous_level();
            },
            Command::Save => {
                if !is_finished {
                    let _ = self.save(false);
                }
            },
            _ => {},
        }
    }

    /// Carry out a movement in the current level and hand on its events.
    fn execute_movement(&mut self, command: &Command)
        requires
            old(self).wf(),
            is_movement(command@),
            command_ok(command@),
        ensures
            final(self).wf(),
            final(self).same_collection(old(self)),
            final(self).rank == old(self).rank,
            final(self).state == old(self).state,
            final(self).macros == old(self).macros,
            final(self).current_level.same_board(&old(self).current_level),
            exists|t: Play|
                #[trigger] movement_play(
                    command@,
                    old(self).current_level.board(),
                    old(self).current_level.play(),
                    t,
                ) && quiet(final(self).current_level.play()) == quiet(t) && final(self).outputs@
                    == old(self).outputs@ + events_out(t.events),
    {
        let ghost b0 = self.current_level.board();
        let ghost s0 = self.current_level.play();
        let ghost mut mid: Play = self.current_level.play();
        let ghost mut found: bool = true;
        let ghost mut path: Seq<Move> = Seq::empty();
        match command {
            Command::Step { direction } => self.current_level.step(*direction),
            Command::WalkTillObstacle { direction } => {
                self.current_level.move_as_far_as_possible(*direction, false)
            },
            Command::PushTillObstacle { direction } => {
                self.current_level.move_as_far_as_possible(*direction, true)
            },
            Command::WalkTowards { position } => {
                let r = self.current_level.move_to(*position, false);
                proof {
                    mid = self.current_level.play();
                    found = r is Some;
                    path = choose|path: Seq<Move>|
                        #[trigger] move_to_effect(b0, s0, *position, false, mid, found, path);
                }
            },
            Command::PushTowards { position } => {
                let r = self.current_level.move_to(*position, true);
                proof {
                    mid = self.current_level.play();
                    found = r is Some;
                    path = choose|path: Seq<Move>|
                        #[trigger] move_to_effect(b0, s0, *position, true, mid, found, path);
                }
            },
            Command::WalkToPosition { position } => {
                let r = self.current_level.move_to(*position, false);
                proof {
                    mid = self.current_level.play();
                    found = r is Some;
                    path = choose|path: Seq<Move>|
                        #[trigger] move_to_effect(b0, s0, *position, false, mid, found, path);
                }
            },
            Command::MoveCrateToTarget { from, to } => {
                let _ = self.current_level.move_crate_to_target(*from, *to);
            },
            Command::Undo => {
                let _ = self.current_level.undo();
            },
            Command::Redo => {
                let _ = self.current_level.redo();
            },
            _ => {},
        }
        proof {
            if !(command@ is WalkTowards || command@ is PushTowards || command@ is WalkToPosition) {
                mid = self.current_level.play();
            }
            assert(s0.events =~= Seq::<Event>::empty());
        }
        self.drain_level_events();
        proof {
            assert(quiet(self.current_level.play()) == quiet(mid));
            if command@ is WalkTowards || command@ is PushTowards || command@ is WalkToPosition {
                match command@ {
                    CommandView::WalkTowards { position } => {
                        assert(move_to_effect(b0, s0, position, false, mid, found, path));
                    },
                    CommandView::PushTowards { position } => {
                        assert(move_to_effect(b0, s0, position, true, mid, found, path));
                    },
                    CommandView::WalkToPosition { position } => {
                        assert(move_to_effect(b0, s0, position, false, mid, found, path));
                    },
                    _ => {},
                }
            }
            assert(movement_play(command@, b0, s0, mid));
        }
    }

    /// Carry out a command that concerns macros; `depth` bounds the nesting of macros.
    fn macro_nested(&mut self, command: &Command, depth: usize)
        requires
            old(self).wf(),
            command@ is RecordMacro || command@ is StoreMacro || command@ is ExecuteMacro,
            command_ok(command@),
        ensures
            final(self).wf(),
            final(self).same_collection(old(self)),
            old(self).state.collection_solved ==> final(self).state.collection_solved,
            !(command@ is ExecuteMacro) ==> {
                &&& macro_effect(command@, old(self).macros@, final(self).macros@)
                &&& final(self).current_level == old(self).current_level
                &&& final(self).rank == old(self).rank
                &&& final(self).state == old(self).state
                &&& final(self).outputs@ == if command@ is StoreMacro && old(self).macros@.target_slot
                    is Some && old(self).macros@.tmp.len() != 0 {
                    old(self).outputs@.push(Output::Event(Event::MacroDefined))
                } else {
                    old(self).outputs@
                }
            },
            command@ matches CommandView::ExecuteMacro(slot) ==> if depth > 0 {
                runs_commands(macro_commands(old(self).macros@, slot), *old(self), *final(self))
            } else {
                *final(self) == *old(self)
            },
        decreases depth, 1int,
    {
        match command {
            Command::ExecuteMacro(slot) => self.execute_macro(*slot, depth),
            Command::RecordMacro(slot) => {
                self.macros.start_recording(*slot);
            },
            Command::StoreMacro => {
                let len = self.macros.stop_recording();
                if len != 0 {
                    self.outputs.push(Output::Event(Event::MacroDefined));
                }
            },
            _ => {},
        }
    }

    /// Carry out the commands of the macro in the given slot, one after the other.
    fn execute_macro(&mut self, slot: u8, depth: usize)
        requires
            old(self).wf(),
            slot < NUMBER_OF_SLOTS,
        ensures
            final(self).wf(),
            final(self).same_collection(old(self)),
            old(self).state.collection_solved ==> final(self).state.collection_solved,
            depth == 0 ==> *final(self) == *old(self),
            depth > 0 ==> runs_commands(
                macro_commands(old(self).macros@, slot),
                *old(self),
                *final(self),
            ),
        decreases depth, 0int,
    {
        if depth == 0 {
            return ;
        }
        let ghost cs = macro_commands(self.macros@, slot);
        let stored = self.macros.get(slot);
        let mut cmds: Vec<Command> = Vec::new();
        let n = stored.len();
        for i in 0..n
            invariant
                n == stored@.len(),
                cmds@.len() == i,
                forall|k: int| 0 <= k < i ==> (#[trigger] cmds@[k])@ == stored@[k]@,
        {
            cmds.push(stored[i].clone());
        }
        proof {
            assert(command_views(stored@).len() == stored@.len());
            assert forall|k: int| 0 <= k < n implies command_ok(#[trigger] cmds@[k]@) by {
                assert(command_views(stored@)[k] == stored@[k]@);
                assert(cmds@[k]@ == stored@[k]@);
                if self.macros.target_slot != Some(slot) {
                    assert(self.macros@.slots[slot as int][k] == command_views(stored@)[k]);
                    assert(command_ok(self.macros@.slots[slot as int][k]));
                }
            }
            assert forall|k: int| 0 <= k < n implies cs[k] == (#[trigger] cmds@[k])@ by {
                assert(command_views(stored@)[k] == stored@[k]@);
            }
        }
        let ghost mut games: Seq<Game> = seq![*self];
        for i in 0..n
            invariant
                n == cmds@.len(),
                n == cs.len(),
                depth > 0,
                forall|k: int| 0 <= k < n ==> command_ok(#[trigger] cmds@[k]@),
                forall|k: int| 0 <= k < n ==> cs[k] == (#[trigger] cmds@[k])@,
                self.wf(),
                self.same_collection(old(self)),
                old(self).state.collection_solved ==> self.state.collection_solved,
                games.len() == i + 1,
                games[0] == *old(self),
                games.last() == *self,
                forall|k: int|
                    0 <= k < i ==> #[trigger] step_effect(cs[k], true, games[k], games[k + 1]),
        {
            self.execute_nested(&cmds[i], true, depth - 1);
            proof {
                let prev = games;
                games = games.push(*self);
                assert forall|k: int| 0 <= k < i + 1 implies #[trigger] step_effect(
                    cs[k],
                    true,
                    games[k],
                    games[k + 1],
                ) by {
                    if k < i {
                        assert(games[k] == prev[k] && games[k + 1] == prev[k + 1]);
                    } else {
                        assert(cs[k] == cmds@[k]@);
                    }
                }
            }
        }
        proof {
            assert(command_chain(cs, games));
        }
    }

    /// Execute a command from the front end; `depth` bounds the nesting of macros.
    fn execute_nested(&mut self, command: &Command, executing_macro: bool, depth: usize)
        requires
            old(self).wf(),
            command_ok(command@),
        ensures
            command_effect(command@, executing_macro, depth as nat, *old(self), *final(self)),
        decreases depth, 2int,
    {
        let ghost g0 = *self;
        let ghost mut t0: Play = self.current_level.play();
        let ghost mut mid: Seq<Output> = self.outputs@;
        let ghost mut sent: Game = *self;
        let is_finished = self.current_level.is_finished();
        if is_finished {
            match command {
                Command::ResetLevel | Command::NextLevel | Command::PreviousLevel
                | Command::Save => self.manage_level(command),
                _ => {},
            }
        } else {
            self.send_command_to_macros(command, executing_macro);
            proof {
                sent = *self;
            }
            match command {
                Command::Nothing => {},
                Command::Step { .. } | Command::WalkTillObstacle { .. }
                | Command::PushTillObstacle { .. } | Command::WalkTowards { .. }
                | Command::PushTowards { .. } | Command::WalkToPosition { .. }
                | Command::MoveCrateToTarget { .. } | Command::Undo | Command::Redo => {
                    self.execute_movement(command);
                    proof {
                        t0 = choose|t: Play|
                            #[trigger] movement_play(
                                command@,
                                g0.current_level.board(),
                                g0.current_level.play(),
                                t,
                            ) && quiet(self.current_level.play()) == quiet(t) && self.outputs@
                                == g0.outputs@ + events_out(t.events);
                        mid = self.outputs@;
                    }
                },
                Command::ResetLevel | Command::NextLevel | Command::PreviousLevel
                | Command::Save => self.manage_level(command),
                Command::RecordMacro(_) | Command::StoreMacro | Command::ExecuteMacro(_) => {
                    self.macro_nested(command, depth)
                },
                Command::LoadCollection(_) => {},
            }
        }
        let ghost before_finishing = *self;
        if self.current_level.is_finished() {
            if self.rank == self.collection.number_of_levels {
                self.state.collection_solved = true;
            }
            if !is_finished {
                let len = self.macros.stop_recording();
                if len != 0 {
                    self.outputs.push(Output::Event(Event::MacroDefined));
                }
            }
            proof {
                if !is_finished && is_movement(command@) {
                    assert(self.outputs@.take(mid.len() as int) =~= mid);
                }
            }
            let _ = self.save(true);
            proof {
                if !is_finished && is_movement(command@) {
                    assert(self.outputs@.take(mid.len() as int) =~= mid);
                }
            }
        }
        proof {
            if !is_finished && command@ is ExecuteMacro {
                assert(sent_game(command@, executing_macro, g0, sent));
                assert(finishing(before_finishing, *self));
            }
            if !is_finished && is_movement(command@) {
                assert(mid == g0.outputs@ + events_out(t0.events));
                assert(quiet(self.current_level.play()) == quiet(t0));
                assert(events_out(t0.events).len() == t0.events.len());
                assert(self.outputs@.len() >= g0.outputs@.len() + t0.events.len());
                assert(self.outputs@.take((g0.outputs@.len() + t0.events.len()) as int) == mid);
                assert(movement_play(
                    command@,
                    g0.current_level.board(),
                    g0.current_level.play(),
                    t0,
                ));
            }
        }
    }

    /// Execute whatever command we get from the front end. Loading a collection is left to the
    /// caller.
    pub fn execute_helper(&mut self, command: &Command, executing_macro: bool)
        requires
            old(self).wf(),
            command_ok(command@),
        ensures
            command_effect(
                command@,
                executing_macro,
                MAX_MACRO_DEPTH as nat,
                *old(self),
                *final(self),
            ),
    {
        self.execute_nested(command, executing_macro, MAX_MACRO_DEPTH)
    }
}

} // verus!

verus! {

/// The collection can be played: it has levels, each a proper level, and knows how many.
pub open spec fn collection_ok(c: Collection) -> bool {
    &&& 1 <= c.levels@.len() < usize::MAX
    &&& forall|i: int| 0 <= i < c.levels@.len() ==> (#[trigger] c.levels@[i]).wf()
    &&& c.number_of_levels == c.levels@.len()
}

/// The board of a level.
pub open spec fn level_board(l: LevelView) -> crate::current_level::rules::Board {
    crate::current_level::rules::Board {
        columns: l.columns as int,
        rows: l.rows as int,
        background: l.background,
    }
}

/// A level before the first move.
pub open spec fn start_play(l: LevelView) -> Play {
    Play {
        entities: Entities { crates: l.crates, worker: l.worker },
        history: crate::undo::UndoView { actions: Seq::empty(), performed: 0 },
        events: Seq::empty(),
    }
}

/// The level the state of a collection resumes at, counting from 0: the one after as many
/// levels as have been finished.
pub open spec fn resume_index(st: CollectionState) -> nat {
    spec_levels_finished(st.levels_view())
}

/// The moves stored for the level a state resumes at, if it was started: how many of them were
/// performed, and all of them.
pub open spec fn stored_moves(st: CollectionState) -> Option<(nat, Seq<char>)> {
    let n = resume_index(st);
    if n < st.levels@.len() {
        match st.levels_view()[n as int] {
            crate::save::level_state::LevelStateView::Started { number_of_moves, moves } => Some(
                (number_of_moves, moves),
            ),
            _ => None,
        }
    } else {
        None
    }
}

/// The state of a collection can be resumed in the collection: unless the whole collection is
/// solved, the level it resumes at exists, and the moves stored for it can be read and made.
pub open spec fn state_loads(c: Collection, st: CollectionState) -> bool {
    !st.collection_solved ==> {
        let n = resume_index(st);
        &&& n < c.levels@.len()
        &&& match stored_moves(st) {
            Some((k, moves)) => {
                &&& crate::move_::spec_parse_moves(moves) is Ok
                &&& ({
                    let ms = crate::move_::spec_parse_moves(moves)->Ok_0;
                    let l = c.levels@[n as int]@;
                    crate::current_level::play_tries(
                        level_board(l),
                        start_play(l),
                        ms.take(if k < ms.len() { k as int } else { ms.len() as int }),
                    ) is Ok
                })
            },
            None => true,
        }
    }
}

/// The level that a collection's state resumes at, as it is resumed: the level afresh, and if
/// moves were stored for it, those moves made, of which the ones that had been undone are ready
/// to be redone.
pub open spec fn resumed(cl: CurrentLevel, l: LevelView, st: CollectionState) -> bool {
    &&& cl.board() == level_board(l)
    &&& match stored_moves(st) {
        Some((k, moves)) => {
            let ms = crate::move_::spec_parse_moves(moves)->Ok_0;
            let kk = if k < ms.len() {
                k as int
            } else {
                ms.len() as int
            };
            match play_tries(level_board(l), start_play(l), ms.take(kk)) {
                Ok(s2) => cl.entities() == s2.entities && cl.history() == if k < ms.len() {
                    loaded_history(s2.history, ms.skip(kk))
                } else {
                    s2.history
                },
                Err(_) => false,
            }
        },
        None => cl.entities() == start_play(l).entities && cl.history() == start_play(l).history,
    }
}

impl Game {
    /// Resume the collection where its state says: at the first level not finished, with the
    /// moves stored for it made (and the undone ones ready to be redone).
    fn load_state(&mut self, state: CollectionState)
        requires
            old(self).wf(),
            state_loads(old(self).collection, state),
        ensures
            final(self).wf(),
            final(self).same_collection(old(self)),
            final(self).macros == old(self).macros,
            final(self).state == state,
            !state.collection_solved ==> final(self).rank == resume_index(state) + 1 && resumed(
                final(self).current_level,
                old(self).levels()[resume_index(state) as int],
                state,
            ),
            state.collection_solved ==> final(self).rank == old(self).rank
                && final(self).current_level == old(self).current_level && final(self).outputs
                == old(self).outputs,
            !state.collection_solved ==> {
                &&& final(self).outputs@.len() > old(self).outputs@.len()
                &&& final(self).outputs@.take(old(self).outputs@.len() as int) == old(self).outputs@
                &&& announces(
                    final(self).outputs@[old(self).outputs@.len() as int],
                    resume_index(state) + 1,
                    old(self).levels()[resume_index(state) as int],
                )
                &&& stored_moves(state) is None ==> final(self).outputs@.len() == old(
                    self,
                ).outputs@.len() + 1
            },
    {
        let ghost out0 = self.outputs@;
        if !state.collection_solved {
            let n = state.levels_finished();
            self.set_current_level(n + 1);
            proof {
                let l = self.levels()[n as int];
                assert(self.current_level.history().actions =~= start_play(l).history.actions);
                assert(self.current_level.board() == level_board(l));
            }
            if n < state.number_of_levels() {
                match &state.levels[n] {
                    LevelState::Started { number_of_moves, moves } => {
                        let ghost l = self.levels()[n as int];
                        proof {
                            assert(state.levels_view()[n as int] == state.levels@[n as int]@);
                            assert(self.current_level.history().actions =~= Seq::<
                                crate::move_::Move,
                            >::empty());
                            assert(self.current_level.pending() =~= Seq::<Event>::empty());
                            assert(self.current_level.play() == start_play(l));
                            assert(self.current_level.board() == level_board(l));
                        }
                        let r = self.current_level.execute_moves(*number_of_moves, moves.as_str());
                        proof {
                            assert(r is Ok);
                            assert(stored_moves(state) == Some(((*number_of_moves) as nat, moves@)));
                        }
                        let ghost out1 = self.outputs@;
                        self.drain_level_events();
                        proof {
                            assert(self.outputs@.take(out1.len() as int) =~= out1);
                            assert(self.outputs@.take(out0.len() as int) =~= out0);
                            assert(self.outputs@[out0.len() as int] == out1[out0.len() as int]);
                        }
                    },
                    LevelState::Finished { .. } => {
                        proof {
                            assert(state.levels_view()[n as int] == state.levels@[n as int]@);
                        }
                    },
                }
            }
        }
        self.state = state;
    }

    /// Can the collection be played, and its state resumed in it?
    pub fn check_setup(collection: &Collection, state: &CollectionState) -> (r: bool)
        ensures
            r == (collection_ok(*collection) && state_loads(*collection, *state)),
    {
        let len = collection.levels.len();
        if len < 1 || len == usize::MAX || collection.number_of_levels != len {
            return false;
        }
        for i in 0..len
            invariant
                len == collection.levels@.len(),
                forall|j: int| 0 <= j < i ==> (#[trigger] collection.levels@[j]).wf(),
        {
            if !collection.levels[i].check() {
                return false;
            }
        }
        if state.collection_solved {
            return true;
        }
        let n = state.levels_finished();
        if n >= len {
            return false;
        }
        if n < state.number_of_levels() {
            match &state.levels[n] {
                LevelState::Started { number_of_moves, moves } => {
                    proof {
                        assert(state.levels_view()[n as int] == state.levels@[n as int]@);
                    }
                    if crate::move_::parse(moves.as_str()).is_err() {
                        return false;
                    }
                    let ghost l = collection.levels@[n as int]@;
                    let mut cl = CurrentLevel::from(&collection.levels[n]);
                    proof {
                        assert(cl.history().actions =~= Seq::<crate::move_::Move>::empty());
                        assert(cl.pending() =~= Seq::<Event>::empty());
                        assert(cl.play() == start_play(l));
                        assert(cl.board() == level_board(l));
                    }
                    return cl.execute_moves(*number_of_moves, moves.as_str()).is_ok();
                },
                LevelState::Finished { .. } => {},
            }
        }
        true
    }

    /// A game of the given collection, resumed where its state says.
    pub fn new(collection: Collection, state: CollectionState) -> (r: Game)
        requires
            collection_ok(collection),
            state_loads(collection, state),
        ensures
            r.wf(),
            r.collection == collection,
            r.name@ == collection.short_name@,
            r.state == state,
            r.rank == if state.collection_solved {
                1
            } else {
                resume_index(state) + 1
            },
            state.collection_solved ==> fresh(r.current_level, r.levels()[0]),
            !state.collection_solved ==> resumed(
                r.current_level,
                r.levels()[resume_index(state) as int],
                state,
            ),
            r.outputs@.len() == 0,
    {
        let current_level = CurrentLevel::from(&collection.levels[0]);
        let name = collection.short_name.clone();
        let mut game = Game {
            name,
            rank: 1,
            current_level,
            collection,
            state: CollectionState::new(""),
            macros: Macros::new(),
            outputs: Vec::new(),
        };
        proof {
            assert forall|s: int, i: int|
                0 <= s < NUMBER_OF_SLOTS && 0 <= i < game.macros@.slots[s].len() implies command_ok(
                #[trigger] game.macros@.slots[s][i],
            ) by {
                assert(game.macros@.slots[s].len() == 0);
            }
        }
        game.load_state(state);
        game.outputs = Vec::new();
        game
    }

    /// Switch to the given collection, resumed where its state says: the first level is
    /// announced, then, unless the whole collection is solved, the level resumed at, followed by
    /// the events of the moves replayed on it.
    pub fn set_collection(&mut self, name: &str, collection: Collection, state: CollectionState)
        requires
            old(self).wf(),
            collection_ok(collection),
            state_loads(collection, state),
        ensures
            final(self).wf(),
            final(self).name@ == name@,
            final(self).collection == collection,
            final(self).state == state,
            final(self).rank == if state.collection_solved {
                1
            } else {
                resume_index(state) + 1
            },
            state.collection_solved ==> fresh(final(self).current_level, final(self).levels()[0]),
            !state.collection_solved ==> resumed(
                final(self).current_level,
                final(self).levels()[resume_index(state) as int],
                state,
            ),
            final(self).macros == old(self).macros,
            final(self).outputs@.len() >= old(self).outputs@.len() + 1,
            final(self).outputs@.take(old(self).outputs@.len() as int) == old(self).outputs@,
            announces(final(self).outputs@[old(self).outputs@.len() as int], 1, final(self).levels()[0]),
            state.collection_solved ==> final(self).outputs@.len() == old(self).outputs@.len() + 1,
            !state.collection_solved ==> {
                &&& final(self).outputs@.len() >= old(self).outputs@.len() + 2
                &&& announces(
                    final(self).outputs@[(old(self).outputs@.len() + 1) as int],
                    resume_index(state) + 1,
                    final(self).levels()[resume_index(state) as int],
                )
                &&& stored_moves(state) is None ==> final(self).outputs@.len() == old(
                    self,
                ).outputs@.len() + 2
            },
    {
        let ghost out0 = self.outputs@;
        self.name = name.to_owned();
        self.collection = collection;
        self.set_current_level(1);
        let ghost out1 = self.outputs@;
        self.load_state(state);
        proof {
            assert(self.outputs@.take(out1.len() as int) =~= out1);
            assert(self.outputs@[out0.len() as int] == out1[out0.len() as int]);
            assert(self.outputs@.take(out0.len() as int) =~= out0);
        }
    }

    /// Hand out what the front end and the disc have not been handed yet.
    pub fn take_outputs(&mut self) -> (r: Vec<Output>)
        ensures
            r@ == old(self).outputs@,
            final(self).outputs@.len() == 0,
            final(self).name == old(self).name,
            final(self).rank == old(self).rank,
            final(self).current_level == old(self).current_level,
            final(self).collection == old(self).collection,
            final(self).state == old(self).state,
            final(self).macros == old(self).macros,
    {
        let mut r: Vec<Output> = Vec::new();
        std::mem::swap(&mut r, &mut self.outputs);
        r
    }

    /// Is the current level the last one in this collection?
    pub fn is_last_level(&self) -> (r: bool)
        ensures
            r == (self.rank == self.collection.number_of_levels),
    {
        self.rank == self.collection.number_of_levels
    }

    /// The current level
    pub fn current_level(&self) -> (r: &CurrentLevel)
        ensures
            *r == self.current_level,
    {
        &self.current_level
    }

    /// The rank of the current level in the current collection.
    pub fn rank(&self) -> (r: usize)
        ensures
            r == self.rank,
    {
        self.rank
    }

    /// The number of columns of the current level.
    pub fn columns(&self) -> (r: usize)
        ensures
            r == self.current_level.columns,
    {
        self.current_level.columns()
    }

    /// The number of rows of the current level.
    pub fn rows(&self) -> (r: usize)
        ensures
            r == self.current_level.rows,
    {
        self.current_level.rows()
    }

    /// The crates' positions, listed by id.
    pub fn crate_positions(&self) -> (r: Vec<Position>)
        ensures
            r@ == self.current_level.entities().crates,
    {
        self.current_level.crate_positions()
    }

    /// Where is the worker?
    pub fn worker_position(&self) -> (r: Position)
        ensures
            r == self.current_level.entities().worker,
    {
        self.current_level.worker_position()
    }

    /// Find out which direction the worker is currently facing.
    pub fn worker_direction(&self) -> (r: Direction)
        requires
            self.wf(),
        ensures
            r == crate::current_level::spec_worker_direction(self.current_level.history()),
    {
        self.current_level.worker_direction()
    }

    /// The number of moves performed since starting to solve this level.
    pub fn number_of_moves(&self) -> (r: usize)
        ensures
            r == self.current_level.history().performed,
    {
        self.current_level.number_of_moves()
    }

    /// The number of pushes performed since starting to solve this level.
    pub fn number_of_pushes(&self) -> (r: usize)
        requires
            self.wf(),
        ensures
            r == crate::current_level::count_pushes(
                crate::current_level::performed_moves(self.current_level.history()),
            ),
    {
        self.current_level.number_of_pushes()
    }

    /// The collection's full name
    pub fn name(&self) -> (r: &str)
        ensures
            r@ == self.collection.name@,
    {
        self.collection.name()
    }

    /// Has the whole collection been solved?
    pub fn is_solved(&self) -> (r: bool)
        ensures
            r == self.state.collection_solved,
    {
        self.state.collection_solved
    }

    /// Carry out a command that concerns macros.
    pub fn macro_command(&mut self, macro_command: &Command)
        requires
            old(self).wf(),
            macro_command@ is RecordMacro || macro_command@ is StoreMacro
                || macro_command@ is ExecuteMacro,
            command_ok(macro_command@),
        ensures
            final(self).wf(),
            final(self).same_collection(old(self)),
            old(self).state.collection_solved ==> final(self).state.collection_solved,
            !(macro_command@ is ExecuteMacro) ==> {
                &&& macro_effect(macro_command@, old(self).macros@, final(self).macros@)
                &&& final(self).current_level == old(self).current_level
                &&& final(self).rank == old(self).rank
                &&& final(self).state == old(self).state
                &&& final(self).outputs@ == if macro_command@ is StoreMacro && old(
                    self,
                ).macros@.target_slot is Some && old(self).macros@.tmp.len() != 0 {
                    old(self).outputs@.push(Output::Event(Event::MacroDefined))
                } else {
                    old(self).outputs@
                }
            },
            macro_command@ matches CommandView::ExecuteMacro(slot) ==> runs_commands(
                macro_commands(old(self).macros@, slot),
                *old(self),
                *final(self),
            ),
    {
        self.macro_nested(macro_command, MAX_MACRO_DEPTH)
    }
}

} // verus!
