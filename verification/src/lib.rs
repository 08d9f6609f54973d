//! Reading the JMdict Japanese-English dictionary: the entity definitions at
//! the head of its XML file, the line-by-line reader of its entries, the
//! expansion of entity references, and the rows that store an entry in a
//! database.
use vstd::prelude::*;

pub mod entities;
pub mod gz;
pub mod jmdict;
pub mod jmserde;
pub mod reader;
pub mod reader_laws;
pub mod roundtrip;
pub mod step_laws;
pub mod store;
pub mod text;
pub mod xml;

verus! {

} // verus!
