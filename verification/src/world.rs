//! The entity store: entities in the order they were spawned, each with the
//! components it carries.

use vstd::prelude::*;
use crate::components::{Cursor, LeftMover, Position, Renderable, Viewshed, ViewshedView};

verus! {

/// One entity: each field is a component it may or may not carry.
#[derive(Clone, Debug, PartialEq, Eq)]
pub struct Entity {
    pub position: Option<Position>,
    pub renderable: Option<Renderable>,
    pub viewshed: Option<Viewshed>,
    pub cursor: Option<Cursor>,
    pub left_mover: Option<LeftMover>,
}

/// An entity as plain mathematical data.
pub struct EntityView {
    pub position: Option<Position>,
    pub renderable: Option<Renderable>,
    pub viewshed: Option<ViewshedView>,
    pub cursor: bool,
    pub left_mover: bool,
}

impl View for Entity {
    type V = EntityView;

    open spec fn view(&self) -> EntityView {
        EntityView {
            position: self.position,
            renderable: self.renderable,
            viewshed: match self.viewshed {
                Some(v) => Some(v@),
                None => None,
            },
            cursor: self.cursor is Some,
            left_mover: self.left_mover is Some,
        }
    }
}

/// A choice of component kinds, used to say what a query asks for or excludes.
#[derive(Clone, Copy, Debug, PartialEq, Eq, Structural)]
pub struct ComponentSet {
    pub position: bool,
    pub renderable: bool,
    pub viewshed: bool,
    pub cursor: bool,
    pub left_mover: bool,
}

impl EntityView {
    /// The entity carries every component kind in `set`.
    pub open spec fn has_all(self, set: ComponentSet) -> bool {
        &&& set.position ==> self.position is Some
        &&& set.renderable ==> self.renderable is Some
        &&& set.viewshed ==> self.viewshed is Some
        &&& set.cursor ==> self.cursor
        &&& set.left_mover ==> self.left_mover
    }

    /// The entity carries no component kind in `set`.
    pub open spec fn has_none(self, set: ComponentSet) -> bool {
        &&& set.position ==> self.position is None
        &&& set.renderable ==> self.renderable is None
        &&& set.viewshed ==> self.viewshed is None
        &&& set.cursor ==> !self.cursor
        &&& set.left_mover ==> !self.left_mover
    }

    /// The entity answers a query for `with` that excludes `without`.
    pub open spec fn answers(self, with: ComponentSet, without: ComponentSet) -> bool {
        self.has_all(with) && self.has_none(without)
    }
}

impl Entity {
    /// An entity with no component.
    pub fn bare() -> (e: Entity)
        ensures
            e@ == (EntityView {
                position: None,
                renderable: None,
                viewshed: None,
                cursor: false,
                left_mover: false,
            }),
    {
        Entity { position: None, renderable: None, viewshed: None, cursor: None, left_mover: None }
    }

    /// Whether the entity answers a query for `with` that excludes `without`.
    pub fn answers(&self, with: ComponentSet, without: ComponentSet) -> (r: bool)
        ensures
            r == self@.answers(with, without),
    {
        let all = (!with.position || self.position.is_some()) && (!with.renderable
            || self.renderable.is_some()) && (!with.viewshed || self.viewshed.is_some()) && (
        !with.cursor || self.cursor.is_some()) && (!with.left_mover || self.left_mover.is_some());
        let none = (!without.position || self.position.is_none()) && (!without.renderable
            || self.renderable.is_none()) && (!without.viewshed || self.viewshed.is_none()) && (
        !without.cursor || self.cursor.is_none()) && (!without.left_mover
            || self.left_mover.is_none());
        all && none
    }
}

/// The ids below `upto`, in rising order, of the entities that answer the query.
pub open spec fn answering(
    world: Seq<EntityView>,
    with: ComponentSet,
    without: ComponentSet,
    upto: int,
) -> Seq<usize>
    decreases upto,
{
    if upto <= 0 {
        Seq::empty()
    } else if world[upto - 1].answers(with, without) {
        answering(world, with, without, upto - 1).push((upto - 1) as usize)
    } else {
        answering(world, with, without, upto - 1)
    }
}

/// Every entity of the game. An entity's id is its place in `entities`, which
/// is the order of spawning and never changes.
#[derive(Clone, Debug, PartialEq, Eq)]
pub struct World {
    pub entities: Vec<Entity>,
}

impl View for World {
    type V = Seq<EntityView>;

    open spec fn view(&self) -> Seq<EntityView> {
        Seq::new(self.entities@.len(), |i: int| self.entities@[i]@)
    }
}

impl World {
    /// A world without entities.
    pub fn new() -> (world: World)
        ensures
            world@ == Seq::<EntityView>::empty(),
    {
        World { entities: Vec::new() }
    }

    /// How many entities there are.
    pub fn len(&self) -> (n: usize)
        ensures
            n == self@.len(),
    {
        self.entities.len()
    }

    /// Adds an entity after all others and returns its id.
    pub fn spawn(&mut self, entity: Entity) -> (id: usize)
        ensures
            id == old(self)@.len(),
            final(self)@ == old(self)@.push(entity@),
    {
        let id = self.entities.len();
        self.entities.push(entity);
        assert(self@ =~= old(self)@.push(entity@));
        id
    }

    /// Hands the entity `id` to `change` and puts what it returns in its place;
    /// no other entity is touched. Returns whether there is such an entity.
    pub fn mutate<F: FnOnce(Entity) -> Entity>(&mut self, id: usize, change: F) -> (found: bool)
        requires
            id < old(self).entities@.len() ==> change.requires((old(self).entities@[id as int],)),
        ensures
            found == (id < old(self).entities@.len()),
            final(self).entities@.len() == old(self).entities@.len(),
            forall|j: int|
                0 <= j < old(self).entities@.len() && j != id ==> final(self).entities@[j] == old(
                    self,
                ).entities@[j],
            found ==> change.ensures(
                (old(self).entities@[id as int],),
                final(self).entities@[id as int],
            ),
    {
        if id < self.entities.len() {
            let mut entity = Entity::bare();
            core::mem::swap(&mut self.entities[id], &mut entity);
            self.entities[id] = change(entity);
            true
        } else {
            false
        }
    }

    /// The ids of the entities that carry every component in `with` and none in
    /// `without`, in the order they were spawned. No match gives an empty list.
    pub fn query(&self, with: ComponentSet, without: ComponentSet) -> (ids: Vec<usize>)
        ensures
            ids@ == answering(self@, with, without, self@.len() as int),
    {
        let mut ids: Vec<usize> = Vec::new();
        let mut i: usize = 0;
        while i < self.entities.len()
            invariant
                i <= self.entities@.len(),
                ids@ == answering(self@, with, without, i as int),
            decreases self.entities@.len() - i,
        {
            if self.entities[i].answers(with, without) {
                ids.push(i);
            }
            i += 1;
        }
        ids
    }
}

} // verus!
