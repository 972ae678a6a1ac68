//! Fixed-width modular arithmetic on 256-bit prime-field elements held in
//! Montgomery form as four 64-bit limbs, least significant first.

pub mod limb;
pub mod value;
pub mod modular;
pub mod reference;
pub mod x86_64;
pub mod aarch64;
pub mod backend;
pub mod laws;
