//! One game session: the world, the map, the schedule and the dice, and the
//! tick that runs every scheduled system once.

use vstd::prelude::*;
use bracket_lib::prelude::RandomNumberGenerator;
use crate::generation::{fence_and_spawn_intact, freshly_generated, lemma_spawn_is_interior};
use crate::keys::Command;
use crate::map::{BoundsError, TileMap, TileMapView};
use crate::movement::{
    astray,
    destination,
    drift_outcome,
    first_astray,
    handle_input,
    lemma_step_ends_on_the_map,
    move_left,
    stepped,
    steps,
    wrap_position,
    wrapped_entity,
};
use crate::render::{
    cls,
    cursor_ops,
    draw_cursor,
    draw_map,
    draw_things,
    entity_ops,
    map_ops,
    world_ops,
    DrawOp,
};
use crate::schedule::{as_declared, pipeline, Access, Schedule, System};
use crate::spawn::{add_cursor, cursor_at_start};
use crate::fov::{lemma_scan_grid_tiles, visible_from};
use crate::visibility::{
    all_inside,
    consumed,
    first_lost,
    first_outside,
    first_stray,
    lemma_reveal_pass_keeps_shape,
    lost,
    refreshed,
    reveal_map,
    revealed_by,
    stale,
    stray,
    update_viewsheds,
};
use crate::world::{EntityView, World};

verus! {

/// What a tick hands to the host: the drawing operations in the order they
/// were asked for, and whether the player asked to quit.
#[derive(Clone, Debug, PartialEq, Eq)]
pub struct Frame {
    pub ops: Vec<DrawOp>,
    pub quit: bool,
}

/// The state that the systems of a tick work on, as plain mathematical data.
pub struct State {
    pub world: Seq<EntityView>,
    pub map: TileMapView,
    pub ops: Seq<DrawOp>,
    pub quit: bool,
}

/// What one system makes of the state: `post` is a state that running `system`
/// on `pre` under the command can end in.
pub open spec fn system_step(system: System, command: Command, pre: State, post: State) -> bool {
    match system {
        System::HandleInput => (forall|i: int|
            0 <= i < pre.world.len() ==> !astray(#[trigger] pre.world[i], pre.map, command))
            && post == (State {
            world: pre.world.map_values(|e: EntityView| stepped(e, pre.map, command)),
            quit: pre.quit || command == Command::Quit,
            ..pre
        }),
        System::MoveLeft => (exists|rolls: Seq<int>| #[trigger]
            drift_outcome(pre.world, post.world, rolls)) && post == (State {
            world: post.world,
            ..pre
        }),
        System::WrapPosition => post == (State {
            world: pre.world.map_values(
                |e: EntityView| wrapped_entity(e, pre.map.width, pre.map.height),
            ),
            ..pre
        }),
        System::Cls => post == (State { ops: pre.ops.push(DrawOp::Clear), ..pre }),
        System::UpdateViewsheds => (forall|i: int|
            0 <= i < pre.world.len() ==> !lost(#[trigger] pre.world[i], pre.map)) && post == (State {
            world: pre.world.map_values(|e: EntityView| refreshed(e, pre.map)),
            ..pre
        }),
        System::RevealMap => (forall|i: int|
            0 <= i < pre.world.len() ==> !stray(#[trigger] pre.world[i], pre.map)) && post
            == (State {
            world: pre.world.map_values(|e: EntityView| consumed(e)),
            map: revealed_by(pre.map, pre.world, pre.world.len() as int),
            ..pre
        }),
        System::DrawMap => post == (State { ops: pre.ops + map_ops(pre.map), ..pre }),
        System::DrawThings => post == (State {
            ops: pre.ops + world_ops(
                pre.world,
                pre.world.len() as int,
                |e: EntityView| entity_ops(e),
            ),
            ..pre
        }),
        System::DrawCursor => post == (State {
            ops: pre.ops + world_ops(
                pre.world,
                pre.world.len() as int,
                |e: EntityView| cursor_ops(e, pre.map.width, pre.map.height),
            ),
            ..pre
        }),
    }
}

/// The bounds error with which a system refuses a state, if it does: the
/// movement refuses a step off the map, the field-of-view pass a stale viewer
/// off the map, the reveal pass a viewshed with a tile off the map. No other
/// system refuses anything.
pub open spec fn system_refuses(
    system: System,
    command: Command,
    pre: State,
    error: BoundsError,
) -> bool {
    match system {
        System::HandleInput => exists|i: int|
            first_astray(pre.world, pre.map, command, i) && error == (BoundsError {
                x: destination(pre.world[i].position->0, command.delta().0, command.delta().1).x,
                y: destination(pre.world[i].position->0, command.delta().0, command.delta().1).y,
            }),
        System::UpdateViewsheds => exists|i: int|
            first_lost(pre.world, pre.map, i) && error == (BoundsError {
                x: pre.world[i].position->0.x,
                y: pre.world[i].position->0.y,
            }),
        System::RevealMap => exists|i: int, k: int|
            first_stray(pre.world, pre.map, i) && first_outside(
                pre.world[i].viewshed->0.visible_tiles,
                pre.map,
                k,
            ) && error == (BoundsError {
                x: pre.world[i].viewshed->0.visible_tiles[k].x,
                y: pre.world[i].viewshed->0.visible_tiles[k].y,
            }),
        _ => false,
    }
}

/// A system that refuses a state makes no step from it: a tick ends with an
/// error exactly where its next system cannot run.
pub proof fn lemma_refusal_excludes_step(
    system: System,
    command: Command,
    pre: State,
    post: State,
    error: BoundsError,
)
    requires
        system_refuses(system, command, pre, error),
    ensures
        !system_step(system, command, pre, post),
{
}

/// Two states hold the same in every part that `parts` names.
pub open spec fn agree_on(parts: Access, a: State, b: State) -> bool {
    &&& parts.world ==> a.world == b.world
    &&& parts.map ==> a.map == b.map
    &&& parts.screen ==> a.ops == b.ops
    &&& parts.quit ==> a.quit == b.quit
}

/// A system changes no part of the state but those it declares to write.
pub proof fn lemma_system_writes_what_it_declares(
    system: System,
    command: Command,
    pre: State,
    post: State,
)
    requires
        system_step(system, command, pre, post),
    ensures
        !system.writes().world ==> post.world == pre.world,
        !system.writes().map ==> post.map == pre.map,
        !system.writes().screen ==> post.ops == pre.ops,
        !system.writes().quit ==> post.quit == pre.quit,
{
}

/// What a system without dice writes depends on nothing but the command and
/// the parts of the state it declares to read or write.
pub proof fn lemma_system_reads_what_it_declares(
    system: System,
    command: Command,
    pre1: State,
    post1: State,
    pre2: State,
    post2: State,
)
    requires
        system != System::MoveLeft,
        system_step(system, command, pre1, post1),
        system_step(system, command, pre2, post2),
        agree_on(system.reads(), pre1, pre2),
        agree_on(system.writes(), pre1, pre2),
    ensures
        agree_on(system.writes(), post1, post2),
{
}

/// The entity stands on the map, if it stands anywhere, and its viewshed, if
/// it has one, holds tiles of the map only.
pub open spec fn within(e: EntityView, map: TileMapView) -> bool {
    &&& e.position is Some ==> map.holds(e.position->0.x as int, e.position->0.y as int)
    &&& e.viewshed is Some ==> all_inside(e.viewshed->0.visible_tiles, map)
}

/// A state in which no pass finds a coordinate off the map: the map has at
/// least one cell, every entity that has a position stands on it, and no
/// viewshed holds a tile off it.
pub open spec fn settled(s: State) -> bool {
    &&& 0 < s.map.width <= i32::MAX
    &&& 0 < s.map.height <= i32::MAX
    &&& forall|i: int| 0 <= i < s.world.len() ==> within(#[trigger] s.world[i], s.map)
}

/// Under the command, some entity would step off the map.
pub open spec fn walks_off(world: Seq<EntityView>, map: TileMapView, command: Command) -> bool {
    exists|i: int| 0 <= i < world.len() && astray(#[trigger] world[i], map, command)
}

/// No system but the movement refuses a settled state.
pub proof fn lemma_settled_is_not_refused(
    system: System,
    command: Command,
    pre: State,
    error: BoundsError,
)
    requires
        settled(pre),
        system != System::HandleInput,
    ensures
        !system_refuses(system, command, pre, error),
{
    if system == System::RevealMap {
        assert forall|i: int| 0 <= i < pre.world.len() implies !stray(
            #[trigger] pre.world[i],
            pre.map,
        ) by {
            assert(within(pre.world[i], pre.map));
        }
    }
    if system == System::UpdateViewsheds {
        assert forall|i: int| 0 <= i < pre.world.len() implies !lost(
            #[trigger] pre.world[i],
            pre.map,
        ) by {
            assert(within(pre.world[i], pre.map));
        }
    }
}

/// What a system other than the wandering pass makes of a settled state is
/// settled again.
pub proof fn lemma_step_keeps_settled(system: System, command: Command, pre: State, post: State)
    requires
        system_step(system, command, pre, post),
        system != System::MoveLeft,
        settled(pre),
    ensures
        settled(post),
{
    match system {
        System::HandleInput => {
            assert forall|i: int| 0 <= i < post.world.len() implies within(
                #[trigger] post.world[i],
                post.map,
            ) by {
                let e = pre.world[i];
                assert(within(e, pre.map));
                assert(!astray(e, pre.map, command));
                if steps(e, command) {
                    lemma_step_ends_on_the_map(e, pre.map, command);
                }
            }
        },
        System::UpdateViewsheds => {
            assert forall|i: int| 0 <= i < post.world.len() implies within(
                #[trigger] post.world[i],
                post.map,
            ) by {
                let e = pre.world[i];
                assert(within(e, pre.map));
                if stale(e) {
                    lemma_scan_grid_tiles(
                        visible_from(
                            pre.map,
                            e.position->0.x as int,
                            e.position->0.y as int,
                            e.viewshed->0.range as int,
                        ),
                        pre.map.width,
                        pre.map.height,
                    );
                }
            }
        },
        System::RevealMap => {
            lemma_reveal_pass_keeps_shape(pre.map, pre.world, pre.world.len() as int);
            assert forall|i: int| 0 <= i < post.world.len() implies within(
                #[trigger] post.world[i],
                post.map,
            ) by {
                let e = pre.world[i];
                assert(within(e, pre.map));
                if e.viewshed is Some {
                    assert forall|j: int|
                        0 <= j < e.viewshed->0.visible_tiles.len() implies post.map.holds(
                        (#[trigger] e.viewshed->0.visible_tiles[j]).x as int,
                        e.viewshed->0.visible_tiles[j].y as int,
                    ) by {
                        assert(pre.map.holds(
                            e.viewshed->0.visible_tiles[j].x as int,
                            e.viewshed->0.visible_tiles[j].y as int,
                        ));
                    }
                }
            }
        },
        _ => {
            assert forall|i: int| 0 <= i < post.world.len() implies within(
                #[trigger] post.world[i],
                post.map,
            ) by {
                assert(within(pre.world[i], pre.map));
            }
        },
    }
}

/// In the fixed pipeline only the movement can refuse: from a settled state,
/// once the movement has run, no later system of the tick finds a coordinate
/// off the map, and the tick ends in a settled state.
pub proof fn lemma_pipeline_runs_clean(
    start: State,
    command: Command,
    trace: Seq<State>,
    done: int,
    error: BoundsError,
)
    requires
        settled(start),
        ran(start, pipeline(), as_declared(8), command, trace, done),
    ensures
        1 <= done < 8 ==> !system_refuses(pipeline()[done], command, trace.last(), error),
        done == 8 ==> settled(trace.last()),
{
    let order = as_declared(8);
    let systems = pipeline();
    assert(settled(trace[0]));
    if done >= 1 {
        assert(system_step(systems[order[0] as int], command, trace[0], trace[1]));
        lemma_step_keeps_settled(System::HandleInput, command, trace[0], trace[1]);
    }
    if done >= 2 {
        assert(system_step(systems[order[1] as int], command, trace[1], trace[2]));
        lemma_step_keeps_settled(System::WrapPosition, command, trace[1], trace[2]);
    }
    if done >= 3 {
        assert(system_step(systems[order[2] as int], command, trace[2], trace[3]));
        lemma_step_keeps_settled(System::Cls, command, trace[2], trace[3]);
    }
    if done >= 4 {
        assert(system_step(systems[order[3] as int], command, trace[3], trace[4]));
        lemma_step_keeps_settled(System::UpdateViewsheds, command, trace[3], trace[4]);
    }
    if done >= 5 {
        assert(system_step(systems[order[4] as int], command, trace[4], trace[5]));
        lemma_step_keeps_settled(System::RevealMap, command, trace[4], trace[5]);
    }
    if done >= 6 {
        assert(system_step(systems[order[5] as int], command, trace[5], trace[6]));
        lemma_step_keeps_settled(System::DrawMap, command, trace[5], trace[6]);
    }
    if done >= 7 {
        assert(system_step(systems[order[6] as int], command, trace[6], trace[7]));
        lemma_step_keeps_settled(System::DrawThings, command, trace[6], trace[7]);
    }
    if done >= 8 {
        assert(system_step(systems[order[7] as int], command, trace[7], trace[8]));
        lemma_step_keeps_settled(System::DrawCursor, command, trace[7], trace[8]);
    }
    if 1 <= done < 8 {
        lemma_settled_is_not_refused(systems[done], command, trace.last(), error);
    }
}

/// Under the fixed pipeline and from a settled state, a refusal can only be
/// the movement's, and then some entity would step off the map.
pub proof fn lemma_refusal_leaves_a_mark(
    start: State,
    command: Command,
    trace: Seq<State>,
    done: int,
    error: BoundsError,
)
    requires
        ran(start, pipeline(), as_declared(8), command, trace, done),
        done < 8,
        settled(start),
        system_refuses(pipeline()[as_declared(8)[done] as int], command, trace.last(), error),
    ensures
        done == 0,
        walks_off(start.world, start.map, command),
{
    lemma_pipeline_runs_clean(start, command, trace, done, error);
}

/// `trace` records a run of the first `done` systems of the order: it starts
/// at `start`, and each state follows from the one before by the system whose
/// turn it was.
pub open spec fn ran(
    start: State,
    systems: Seq<System>,
    order: Seq<usize>,
    command: Command,
    trace: Seq<State>,
    done: int,
) -> bool {
    &&& 0 <= done <= order.len()
    &&& trace.len() == done + 1
    &&& trace[0] == start
    &&& forall|j: int|
        0 <= j < done ==> system_step(
            systems[order[j] as int],
            command,
            #[trigger] trace[j],
            trace[j + 1],
        )
}

/// One game session.
pub struct Simulation {
    pub world: World,
    pub map: TileMap,
    pub schedule: Schedule,
    pub rng: RandomNumberGenerator,
}

impl Simulation {
    /// The map is well formed and the schedule lists every system once.
    pub open spec fn wf(&self) -> bool {
        self.map.wf() && self.schedule.wf()
    }

    /// The session's state at the start of a tick: nothing drawn, no quit asked.
    pub open spec fn at_start(&self) -> State {
        State { world: self.world@, map: self.map@, ops: Seq::empty(), quit: false }
    }

    /// Starts a session on a freshly generated map of the given size, with the
    /// cursor on the spawn cell and the fixed pipeline as the schedule.
    pub fn new(width: i32, height: i32, rng: RandomNumberGenerator) -> (sim: Simulation)
        requires
            3 <= width,
            3 <= height,
            width * height <= i32::MAX,
        ensures
            sim.wf(),
            freshly_generated(sim.map@, width as int, height as int),
            fence_and_spawn_intact(sim.map.terrain@, width as int, height as int),
            sim.world@ == seq![cursor_at_start(width as int, height as int)],
            sim.schedule.systems@ == pipeline(),
            sim.schedule.order@ == as_declared(8),
            settled(sim.at_start()),
    {
        let mut rng = rng;
        let map = TileMap::new_map(width, height, &mut rng);
        let mut world = World::new();
        add_cursor(&mut world, &map);
        assert(world@ =~= seq![cursor_at_start(width as int, height as int)]);
        proof {
            lemma_spawn_is_interior(width as int, height as int);
        }
        Simulation { world, map, schedule: Schedule::standard(), rng }
    }

    /// Runs one tick: every scheduled system once, in the schedule's order,
    /// each on the state the one before left. Returns what was drawn and
    /// whether to quit. A system that refuses its state ends the tick with its
    /// error; the session is then as the systems before it left it. Under the
    /// fixed pipeline, a tick that starts settled fails only if the command
    /// would take an entity off the map, and else ends settled.
    pub fn tick(&mut self, command: Command) -> (r: Result<Frame, BoundsError>)
        requires
            old(self).wf(),
        ensures
            final(self).wf(),
            final(self).schedule == old(self).schedule,
            old(self).schedule.systems@ == pipeline() && old(self).schedule.order@ == as_declared(8)
                && settled(old(self).at_start()) ==> (r is Err <==> walks_off(
                old(self).world@,
                old(self).map@,
                command,
            )) && (r is Ok ==> settled(final(self).at_start())),
            match r {
                Ok(frame) => exists|trace: Seq<State>|
                    {
                        &&& #[trigger] ran(
                            old(self).at_start(),
                            old(self).schedule.systems@,
                            old(self).schedule.order@,
                            command,
                            trace,
                            old(self).schedule.order@.len() as int,
                        )
                        &&& trace.last() == (State {
                            world: final(self).world@,
                            map: final(self).map@,
                            ops: frame.ops@,
                            quit: frame.quit,
                        })
                    },
                Err(error) => exists|trace: Seq<State>, done: int|
                    {
                        &&& #[trigger] ran(
                            old(self).at_start(),
                            old(self).schedule.systems@,
                            old(self).schedule.order@,
                            command,
                            trace,
                            done,
                        )
                        &&& done < old(self).schedule.order@.len()
                        &&& system_refuses(
                            old(self).schedule.systems@[old(self).schedule.order@[done] as int],
                            command,
                            trace.last(),
                            error,
                        )
                        &&& trace.last().world == final(self).world@
                        &&& trace.last().map == final(self).map@
                    },
            },
    {
        let mut ops: Vec<DrawOp> = Vec::new();
        let mut quit = false;
        let ghost start = self.at_start();
        let ghost systems = self.schedule.systems@;
        let ghost order = self.schedule.order@;
        let ghost mut trace: Seq<State> = seq![start];
        let mut k: usize = 0;
        while k < self.schedule.order.len()
            invariant
                self.wf(),
                self.schedule == old(self).schedule,
                systems == self.schedule.systems@,
                order == self.schedule.order@,
                start == old(self).at_start(),
                k <= order.len(),
                ran(start, systems, order, command, trace, k as int),
                trace.last() == (State {
                    world: self.world@,
                    map: self.map@,
                    ops: ops@,
                    quit,
                }),
            decreases order.len() - k,
        {
            let ghost pre = trace.last();
            let system = self.schedule.systems[self.schedule.order[k]];
            match system {
                System::HandleInput => {
                    match handle_input(&mut self.world, &self.map, command) {
                        Ok(asked) => {
                            quit = quit || asked;
                        },
                        Err(error) => {
                            proof {
                                let i = choose|i: int|
                                    first_astray(pre.world, pre.map, command, i) && error == (
                                    BoundsError {
                                        x: destination(
                                            pre.world[i].position->0,
                                            command.delta().0,
                                            command.delta().1,
                                        ).x,
                                        y: destination(
                                            pre.world[i].position->0,
                                            command.delta().0,
                                            command.delta().1,
                                        ).y,
                                    });
                                assert(first_astray(pre.world, pre.map, command, i));
                                assert(system_refuses(system, command, pre, error));
                                if systems == pipeline() && order == as_declared(8) && settled(
                                    start,
                                ) {
                                    lemma_refusal_leaves_a_mark(
                                        start,
                                        command,
                                        trace,
                                        k as int,
                                        error,
                                    );
                                }
                            }
                            return Err(error);
                        },
                    }
                },
                System::MoveLeft => {
                    move_left(&mut self.world, &mut self.rng);
                },
                System::WrapPosition => {
                    wrap_position(&mut self.world, &self.map);
                },
                System::Cls => {
                    cls(&mut ops);
                },
                System::UpdateViewsheds => {
                    match update_viewsheds(&mut self.world, &self.map) {
                        Ok(_) => {},
                        Err(error) => {
                            proof {
                                assert(system_refuses(system, command, pre, error));
                                if systems == pipeline() && order == as_declared(8) && settled(
                                    start,
                                ) {
                                    lemma_refusal_leaves_a_mark(
                                        start,
                                        command,
                                        trace,
                                        k as int,
                                        error,
                                    );
                                }
                            }
                            return Err(error);
                        },
                    }
                },
                System::RevealMap => {
                    match reveal_map(&mut self.world, &mut self.map) {
                        Ok(_) => {},
                        Err(error) => {
                            proof {
                                assert(system_refuses(system, command, pre, error));
                                if systems == pipeline() && order == as_declared(8) && settled(
                                    start,
                                ) {
                                    lemma_refusal_leaves_a_mark(
                                        start,
                                        command,
                                        trace,
                                        k as int,
                                        error,
                                    );
                                }
                            }
                            return Err(error);
                        },
                    }
                },
                System::DrawMap => {
                    draw_map(&mut ops, &self.map);
                },
                System::DrawThings => {
                    draw_things(&mut ops, &self.world);
                },
                System::DrawCursor => {
                    draw_cursor(&mut ops, &self.world, &self.map);
                },
            }
            proof {
                let post = State { world: self.world@, map: self.map@, ops: ops@, quit };
                assert(system_step(system, command, pre, post));
                let longer = trace.push(post);
                assert forall|j: int| 0 <= j < k + 1 implies system_step(
                    systems[order[j] as int],
                    command,
                    #[trigger] longer[j],
                    longer[j + 1],
                ) by {
                    if j < k {
                        assert(longer[j] == trace[j]);
                        assert(longer[j + 1] == trace[j + 1]);
                    }
                }
                trace = longer;
            }
            k += 1;
        }
        proof {
            if systems == pipeline() && order == as_declared(8) && settled(start) {
                lemma_pipeline_runs_clean(start, command, trace, 8, BoundsError { x: 0, y: 0 });
                assert(system_step(System::HandleInput, command, trace[0], trace[1]));
                assert forall|i: int| 0 <= i < self.world@.len() implies within(
                    #[trigger] self.at_start().world[i],
                    self.at_start().map,
                ) by {
                    assert(within(trace.last().world[i], trace.last().map));
                }
            }
        }
        Ok(Frame { ops, quit })
    }
}

} // verus!
