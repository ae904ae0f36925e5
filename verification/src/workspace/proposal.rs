//! A proposed configuration of a workspace, as TOML.

use crate::text::Failure;
use vstd::prelude::*;

verus! {

/// A TOML value of the `toml` crate.
#[verifier::external_type_specification]
#[verifier::external_body]
pub struct ExTomlValue(toml::Value);

/// What a TOML value is.
pub enum Toml {
    Text(Seq<char>),
    Table(Map<Seq<char>, Toml>),
    Other,
}

/// What a value of the `toml` crate is made of.
pub uninterp spec fn toml_contents(value: toml::Value) -> Toml;

/// What the `toml` crate writes for a value, or why it writes nothing.
pub uninterp spec fn toml_rendered(value: Toml) -> Result<Seq<char>, Seq<char>>;

/// `toml::Value::String` is a text.
#[verifier::external_body]
fn text_value(text: String) -> (value: toml::Value)
    ensures
        toml_contents(value) == Toml::Text(text@),
{
    toml::Value::String(text)
}

/// What entries hold, by name.
pub open spec fn table_of(entries: Seq<(String, toml::Value)>) -> Map<Seq<char>, Toml>
    decreases entries.len(),
{
    if entries.len() == 0 {
        Map::empty()
    } else {
        table_of(entries.drop_last()).insert(
            entries.last().0@,
            toml_contents(entries.last().1),
        )
    }
}

/// `toml::Value::Table` is a table, here of entries with different names.
#[verifier::external_body]
fn table_value(entries: Vec<(String, toml::Value)>) -> (value: toml::Value)
    requires
        forall|i: int, j: int|
            0 <= i < j < entries.len() ==> (#[trigger] entries@[i]).0@ != (
            #[trigger] entries@[j]).0@,
    ensures
        toml_contents(value) == Toml::Table(table_of(entries@)),
{
    toml::Value::Table(entries.into_iter().collect())
}

/// Whether a TOML value is made of texts and tables alone.
pub open spec fn is_written_out(value: Toml) -> bool
    decreases value,
{
    match value {
        Toml::Text(_) => true,
        Toml::Table(entries) => {
            &&& entries.dom().finite()
            &&& forall|name: Seq<char>|
                entries.dom().contains(name) ==> is_written_out(#[trigger] entries[name])
        },
        Toml::Other => false,
    }
}

/// `toml::to_string` writes a value of texts and tables, by what it is made of alone; what it
/// writes is left unsaid.
#[verifier::external_body]
fn render(value: &toml::Value) -> (result: Result<String, String>)
    requires
        is_written_out(toml_contents(*value)),
    ensures
        match result {
            Ok(text) => toml_rendered(toml_contents(*value)) == Ok::<Seq<char>, Seq<char>>(text@),
            Err(message) => toml_rendered(toml_contents(*value)) == Err::<Seq<char>, Seq<char>>(
                message@,
            ),
        },
{
    toml::to_string(value).map_err(|error| error.to_string())
}

/// A member of a workspace: its name, and the path of its root.
#[derive(Debug)]
pub struct ProposedMember {
    pub name: String,
    pub path: String,
}

/// A table with one entry.
pub open spec fn one_entry(name: Seq<char>, value: Toml) -> Toml {
    Toml::Table(Map::empty().insert(name, value))
}

/// The entries of members, by name.
pub open spec fn member_table(members: Seq<ProposedMember>) -> Map<Seq<char>, Toml>
    decreases members.len(),
{
    if members.len() == 0 {
        Map::empty()
    } else {
        member_table(members.drop_last()).insert(
            members.last().name@,
            one_entry("path"@, Toml::Text(members.last().path@)),
        )
    }
}

/// The proposed configuration of a workspace with members.
pub open spec fn proposal(members: Seq<ProposedMember>) -> Toml {
    Toml::Table(
        Map::empty().insert("workspace"@, one_entry("name"@, Toml::Text("workspace"@))).insert(
            "members"@,
            Toml::Table(member_table(members)),
        ),
    )
}

/// Whether members have different names.
pub open spec fn names_differ(members: Seq<ProposedMember>) -> bool {
    forall|i: int, j: int|
        0 <= i < j < members.len() ==> (#[trigger] members[i]).name@ != (
        #[trigger] members[j]).name@
}

proof fn lemma_one_entry(name: Seq<char>, value: Toml)
    requires
        is_written_out(value),
    ensures
        is_written_out(one_entry(name, value)),
{
}

proof fn lemma_member_table(members: Seq<ProposedMember>)
    ensures
        is_written_out(Toml::Table(member_table(members))),
    decreases members.len(),
{
    if members.len() > 0 {
        lemma_member_table(members.drop_last());
        lemma_one_entry("path"@, Toml::Text(members.last().path@));
        assert(is_written_out(Toml::Table(member_table(members.drop_last()))));
    }
}

proof fn lemma_proposal(members: Seq<ProposedMember>)
    ensures
        is_written_out(proposal(members)),
{
    lemma_one_entry("name"@, Toml::Text("workspace"@));
    lemma_member_table(members);
}

fn single(name: &str, value: toml::Value) -> (table: toml::Value)
    ensures
        toml_contents(table) == one_entry(name@, toml_contents(value)),
{
    let mut entries: Vec<(String, toml::Value)> = Vec::new();
    entries.push((name.to_owned(), value));
    assert(entries@.drop_last() =~= Seq::<(String, toml::Value)>::empty());
    reveal_with_fuel(table_of, 2);
    table_value(entries)
}

/// The proposed configuration of a workspace with members, as TOML.
pub fn propose(members: Vec<ProposedMember>) -> (result: Result<String, Failure>)
    requires
        names_differ(members@),
    ensures
        match toml_rendered(proposal(members@)) {
            Ok(text) => result is Ok && result->Ok_0@ == text,
            Err(message) => result is Err && crate::text::plain(result->Err_0, message),
        },
{
    let mut entries: Vec<(String, toml::Value)> = Vec::new();
    let mut i: usize = 0;
    while i < members.len()
        invariant
            i <= members.len(),
            entries.len() == i,
            table_of(entries@) == member_table(members@.take(i as int)),
            forall|k: int| 0 <= k < i ==> (#[trigger] entries@[k]).0@ == members@[k].name@,
        decreases members.len() - i,
    {
        let path = text_value(members[i].path.clone());
        let entry = single("path", path);
        let ghost before = entries@;
        entries.push((members[i].name.clone(), entry));
        assert(entries@.drop_last() =~= before);
        assert(members@.take(i + 1).drop_last() =~= members@.take(i as int));
        i += 1;
    }
    proof {
        assert forall|a: int, b: int| 0 <= a < b < entries.len() implies (
        #[trigger] entries@[a]).0@ != (#[trigger] entries@[b]).0@ by {
            assert(members@[a].name@ != members@[b].name@);
        }
    }
    assert(members@.take(i as int) =~= members@);
    let table = table_value(entries);
    let name = text_value("workspace".to_owned());
    let mut top: Vec<(String, toml::Value)> = Vec::new();
    top.push(("workspace".to_owned(), single("name", name)));
    let ghost first = top@;
    top.push(("members".to_owned(), table));
    proof {
        reveal_strlit("workspace");
        reveal_strlit("members");
        assert("workspace"@.len() != "members"@.len());
    }
    proof {
        assert(top@.drop_last() =~= first);
        assert(first.drop_last() =~= Seq::<(String, toml::Value)>::empty());
        reveal_with_fuel(table_of, 3);
    }
    let document = table_value(top);
    proof {
        lemma_proposal(members@);
    }
    match render(&document) {
        Ok(text) => Ok(text),
        Err(message) => Err(Failure::of(message)),
    }
}

} // verus!
