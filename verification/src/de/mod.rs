mod deserializer;
mod read;

pub use self::deserializer::{
    converted, reports, scalar_step, text_found, Deserializer, KeyValueAccess,
};
pub use crate::grammar::ElemType;
pub use self::read::{byte_at, lemma_position_step, position_behind, IoRead, Read};
