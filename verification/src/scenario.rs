//! The persisted entity: a named scenario record with an opaque payload.

use vstd::prelude::*;

verus! {

/// A scenario record as the store persists it.
///
/// `id` is a caller-supplied key that identifies at most one record at a
/// time; `data` is an opaque serialized payload that the store neither parses
/// nor validates; the two timestamps are caller-supplied strings in a
/// sortable lexical format.
pub struct SavedScenario {
    pub id: String,
    pub name: String,
    pub data: String,
    pub created_at: String,
    pub updated_at: String,
}

/// The mathematical view of a record: its five fields as character sequences.
pub ghost struct ScenarioView {
    pub id: Seq<char>,
    pub name: Seq<char>,
    pub data: Seq<char>,
    pub created_at: Seq<char>,
    pub updated_at: Seq<char>,
}

impl View for SavedScenario {
    type V = ScenarioView;

    open spec fn view(&self) -> ScenarioView {
        ScenarioView {
            id: self.id@,
            name: self.name@,
            data: self.data@,
            created_at: self.created_at@,
            updated_at: self.updated_at@,
        }
    }
}

/// Copies a record field by field; the copy has the same view as the
/// original.
pub fn clone_scenario(s: &SavedScenario) -> (r: SavedScenario)
    ensures
        r@ == s@,
{
    SavedScenario {
        id: s.id.clone(),
        name: s.name.clone(),
        data: s.data.clone(),
        created_at: s.created_at.clone(),
        updated_at: s.updated_at.clone(),
    }
}

} // verus!
