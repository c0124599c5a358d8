//! Standard library modules for smart contracts: a growable typed sequence,
//! an optional-value type, a byte-backed UTF-8 string, object metadata
//! bookkeeping, and integer math utilities.

pub mod math;
pub mod object;
pub mod option;
pub mod string;
pub mod vector;

pub use object::ObjectID;
pub use object::ObjectMetadata;
pub use object::ObjectRef;
pub use object::Owner;
pub use object::SilverAddress;
pub use option::Option;
pub use string::String;
pub use string::StringError;
pub use vector::IndexOutOfBounds;
pub use vector::Vector;

pub use math::abs_i64;
pub use math::max_u64;
pub use math::min_u64;
pub use math::clamp_u64;
pub use math::pow_u64_checked;
pub use math::isqrt_u64;
pub use math::gcd_u64;
pub use math::lcm_u64;
pub use math::is_prime;
pub use math::factorial_u64;
pub use math::fibonacci_u64;
pub use math::mod_exp_u64;
