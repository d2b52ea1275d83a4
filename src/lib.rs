//! Managed-object heap for a term-rewriting virtual machine.
//!
//! Objects (symbols, variables, applications) live in an arena owned by a
//! [`Heap`]. They are reached through three tiers of handles: unsafe handles
//! name an object directly, scoped handles name a root slot that the heap keeps
//! on its scope stack, and pinned handles name an object whose `PINNED` flag is
//! set for as long as the handle is in use.

use vstd::prelude::*;

pub mod application;
pub mod de_bruijn;
pub mod heap;
pub mod object;
pub mod symbol;
pub mod unsafe_ref_cell;
pub mod variable;

pub use application::NumArgumentsError;
pub use de_bruijn::DeBruijn;
pub use de_bruijn::FreeCache;

pub use heap::Heap;
pub use heap::PinnedHandle;
pub use heap::Scope;
pub use heap::ScopedHandle;
pub use heap::UnsafeHandle;
pub use object::Flags;
pub use object::Header;
pub use object::Kind;
pub use object::Object;
pub use object::Payload;
pub use symbol::SymbolLenError;
pub use unsafe_ref_cell::UnsafeRefCell;
pub use unsafe_ref_cell::UnsafeRefMut;
