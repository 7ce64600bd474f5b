use vstd::prelude::*;

verus! {

/// A stable integer handle identifying one game object. Handles are never reused.
pub type Entity = usize;

/// The structural fingerprint of an archetype: which component columns its table holds.
#[derive(PartialEq, Eq, Structural, Clone, Copy, Debug, Hash)]
pub struct ArchetypeKey {
    pub has_position: bool,
    pub is_controllable: bool,
    pub is_hostile: bool,
    pub has_hp: bool,
    pub has_strength: bool,
    pub has_loot: bool,
}

/// A grid coordinate.
#[derive(PartialEq, Eq, Structural, Clone, Copy, Debug)]
pub struct Position {
    pub x: usize,
    pub y: usize,
}

impl Position {
    pub fn new(x: usize, y: usize) -> (r: Self)
        ensures
            r.x == x,
            r.y == y,
    {
        Position { x, y }
    }
}

/// Hit points; they never go below zero.
#[derive(PartialEq, Eq, Structural, Clone, Copy, Debug)]
pub struct HP(pub usize);

/// The upper bound of the damage an entity deals in one attack.
#[derive(PartialEq, Eq, Structural, Clone, Copy, Debug)]
pub struct Strength(pub usize);

/// A one-tick marker: the row intends to attack the entity it holds.
#[derive(PartialEq, Eq, Structural, Clone, Copy, Debug)]
pub struct AggressionIntent(pub Entity);

/// An amount of damage dealt by one attack.
#[derive(PartialEq, Eq, Structural, Clone, Copy, Debug)]
pub struct Damage(pub usize);

/// The entities that a corpse holds.
#[derive(Clone, Debug)]
pub struct Loot(pub Vec<Entity>);

/// Default component values of an archetype, resolved when an entity is spawned.
pub struct EntityTemplate {
    pub default_hp: Option<HP>,
    pub default_strength: Option<Strength>,
    pub default_loot: Option<Loot>,
}

/// The closed set of archetypes that can be spawned.
#[derive(PartialEq, Eq, Structural, Clone, Copy, Debug)]
pub enum ArchetypeId {
    Player,
    Enemy,
    Corpse,
}

impl ArchetypeId {
    /// The table key of the archetype.
    pub open spec fn key_spec(self) -> ArchetypeKey {
        match self {
            ArchetypeId::Player => ArchetypeKey {
                has_position: true,
                is_controllable: true,
                is_hostile: false,
                has_hp: true,
                has_strength: true,
                has_loot: false,
            },
            ArchetypeId::Enemy => ArchetypeKey {
                has_position: true,
                is_controllable: false,
                is_hostile: true,
                has_hp: true,
                has_strength: true,
                has_loot: false,
            },
            ArchetypeId::Corpse => ArchetypeKey {
                has_position: true,
                is_controllable: false,
                is_hostile: false,
                has_hp: false,
                has_strength: false,
                has_loot: true,
            },
        }
    }

    /// The default hit points of the archetype, if it declares any.
    pub open spec fn hp_spec(self) -> Option<usize> {
        match self {
            ArchetypeId::Player => Some(10),
            ArchetypeId::Enemy => Some(6),
            ArchetypeId::Corpse => None,
        }
    }

    /// The default strength of the archetype, if it declares any.
    pub open spec fn strength_spec(self) -> Option<usize> {
        match self {
            ArchetypeId::Player => Some(2),
            ArchetypeId::Enemy => Some(1),
            ArchetypeId::Corpse => None,
        }
    }

    /// The default loot of the archetype, if it declares any.
    pub open spec fn loot_spec(self) -> Option<Seq<Entity>> {
        match self {
            ArchetypeId::Corpse => Some(seq![0usize]),
            _ => None,
        }
    }

    /// Whether a template holds exactly the archetype's defaults.
    pub open spec fn template_matches(self, t: EntityTemplate) -> bool {
        &&& t.default_hp == (match self.hp_spec() {
            Some(h) => Some(HP(h)),
            None => None,
        })
        &&& t.default_strength == (match self.strength_spec() {
            Some(s) => Some(Strength(s)),
            None => None,
        })
        &&& t.default_loot.is_some() == self.loot_spec().is_some()
        &&& t.default_loot.is_some() ==> t.default_loot.unwrap().0@ == self.loot_spec().unwrap()
    }

    pub fn template(&self) -> (r: Option<EntityTemplate>)
        ensures
            r.is_some(),
            self.template_matches(r.unwrap()),
    {
        match self {
            ArchetypeId::Player => Some(
                EntityTemplate {
                    default_hp: Some(HP(10)),
                    default_strength: Some(Strength(2)),
                    default_loot: None,
                },
            ),
            ArchetypeId::Enemy => Some(
                EntityTemplate {
                    default_hp: Some(HP(6)),
                    default_strength: Some(Strength(1)),
                    default_loot: None,
                },
            ),
            ArchetypeId::Corpse => {
                let loot = vec![0usize];
                assert(loot@ == seq![0usize]);
                Some(
                    EntityTemplate {
                        default_hp: None,
                        default_strength: None,
                        default_loot: Some(Loot(loot)),
                    },
                )
            },
        }
    }

    pub fn key(&self) -> (r: ArchetypeKey)
        ensures
            r == self.key_spec(),
    {
        match self {
            ArchetypeId::Player => ArchetypeKey {
                has_position: true,
                is_controllable: true,
                is_hostile: false,
                has_hp: true,
                has_strength: true,
                has_loot: false,
            },
            ArchetypeId::Enemy => ArchetypeKey {
                has_position: true,
                is_controllable: false,
                is_hostile: true,
                has_hp: true,
                has_strength: true,
                has_loot: false,
            },
            ArchetypeId::Corpse => ArchetypeKey {
                has_position: true,
                is_controllable: false,
                is_hostile: false,
                has_hp: false,
                has_strength: false,
                has_loot: true,
            },
        }
    }
}

} // verus!
