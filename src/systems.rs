// The systems run once per tick, in a fixed order, each with full access to the world:
// input, aggression, damage, death, then the enemies' movement.

pub mod aggression;
pub mod damage;
pub mod death;
pub mod enemy_ai;
pub mod input;
pub mod render;

pub use aggression::AggressionSystem;
pub use damage::DamageSystem;
pub use death::DeathSystem;
pub use enemy_ai::EnemyAISystem;
pub use input::{key_event, Direction, InputEvent, InputSystem};
pub use render::RenderSystem;
