//! What holds of the members of a workspace, their caches and the commands that are for them.

use crate::digest;
use crate::path_laws;
use crate::paths;
use crate::store::paths as store_paths;
use crate::system::routing_laws;
use crate::text::Failure;
use crate::workspace;
use crate::workspace::proposal;
use crate::workspace::proposal::ProposedMember;
use crate::workspace::proposal::Toml;
use crate::workspace::DiscoveredRoot;
use crate::workspace::LocalAction;
use vstd::prelude::*;
use vstd::utf8;

verus! {

/// The cache of a workspace is below the base that was given, in `workspace`; else beside the
/// cache that its file would have, in `workspaces`. Its name is the first 24 bytes of the
/// identity of the workspace.
pub proof fn law_workspace_caches_are_named_by_identity(
    id: Seq<char>,
    base: Seq<u8>,
    root_cache: Seq<u8>,
    name: Seq<u8>,
    rest: Seq<u8>,
)
    requires
        utf8::encode_utf8(id) == name + rest,
        name.len() == 24,
        name[0] != 47,
        routing_laws::goes_on(base),
    ensures
        workspace::workspace_cache(id, Some(base), root_cache) == Some(
            path_laws::on_to(path_laws::on_to(base, utf8::encode_utf8("workspace"@)), name),
        ),
        paths::directory_of(root_cache) == Some(base) ==> workspace::workspace_cache(
            id,
            None,
            root_cache,
        ) == Some(
            path_laws::on_to(path_laws::on_to(base, utf8::encode_utf8("workspaces"@)), name),
        ),
        paths::directory_of(root_cache) is None ==> workspace::workspace_cache(
            id,
            None,
            root_cache,
        ) is None,
{
    reveal_strlit("workspace");
    reveal_strlit("workspaces");
    assert(utf8::encode_utf8(id).take(24) =~= name);
    routing_laws::lemma_plain_name("workspace"@);
    routing_laws::lemma_plain_name("workspaces"@);
    let one = utf8::encode_utf8("workspace"@);
    let many = utf8::encode_utf8("workspaces"@);
    assert(paths::joined(base, one) =~= path_laws::on_to(base, one));
    assert(paths::joined(base, many) =~= path_laws::on_to(base, many));
    assert(paths::joined(base, one).last() == one.last());
    assert(paths::joined(base, many).last() == many.last());
    assert(paths::joined(paths::joined(base, one), name) =~= path_laws::on_to(
        path_laws::on_to(base, one),
        name,
    ));
    assert(paths::joined(paths::joined(base, many), name) =~= path_laws::on_to(
        path_laws::on_to(base, many),
        name,
    ));
}

/// The digest that names the cache of a root.
pub open spec fn root_digest(root: Seq<u8>) -> Seq<u8> {
    digest::blake3_digest(utf8::encode_utf8(store_paths::as_chars(store_paths::escaped(root))))
}

proof fn lemma_hex_apart(a: Seq<u8>, b: Seq<u8>, n: int)
    requires
        0 <= n <= a.len(),
        n <= b.len(),
        digest::hex(a).take(2 * n) == digest::hex(b).take(2 * n),
    ensures
        a.take(n) == b.take(n),
{
    assert forall|i: int| 0 <= i < n implies #[trigger] a[i] == b[i] by {
        let x = digest::hex(a);
        let y = digest::hex(b);
        assert(x.take(2 * n)[2 * i] == x[2 * i]);
        assert(y.take(2 * n)[2 * i] == y[2 * i]);
        assert(x.take(2 * n)[2 * i + 1] == x[2 * i + 1]);
        assert(y.take(2 * n)[2 * i + 1] == y[2 * i + 1]);
        assert((2 * i) / 2 == i && (2 * i) % 2 == 0);
        assert((2 * i + 1) / 2 == i && (2 * i + 1) % 2 == 1);
        assert(digest::hex_digit(a[i] as int / 16) == digest::hex_digit(b[i] as int / 16));
        assert(digest::hex_digit(a[i] as int % 16) == digest::hex_digit(b[i] as int % 16));
        lemma_digit_apart(a[i] as int / 16, b[i] as int / 16);
        lemma_digit_apart(a[i] as int % 16, b[i] as int % 16);
        assert(a[i] as int == 16 * (a[i] as int / 16) + a[i] as int % 16);
        assert(b[i] as int == 16 * (b[i] as int / 16) + b[i] as int % 16);
    }
    assert(a.take(n) =~= b.take(n));
}

proof fn lemma_digit_apart(a: int, b: int)
    requires
        0 <= a < 16,
        0 <= b < 16,
        digest::hex_digit(a) == digest::hex_digit(b),
    ensures
        a == b,
{
}

/// Two members have the same name for their caches just where the digests of their roots begin
/// with the same twelve bytes.
pub proof fn law_members_have_caches_of_their_own(a: Seq<u8>, b: Seq<u8>)
    requires
        root_digest(a).len() >= 12,
        root_digest(b).len() >= 12,
    ensures
        workspace::member_name(a).len() == 24,
        workspace::member_name(a) == workspace::member_name(b) <==> root_digest(a).take(12)
            == root_digest(b).take(12),
{
    let x = root_digest(a);
    let y = root_digest(b);
    if workspace::member_name(a) == workspace::member_name(b) {
        lemma_hex_apart(x, y, 12);
    }
    if x.take(12) == y.take(12) {
        assert forall|i: int| 0 <= i < 24 implies #[trigger] digest::hex(x)[i] == digest::hex(
            y,
        )[i] by {
            assert(x.take(12)[i / 2] == x[i / 2]);
            assert(y.take(12)[i / 2] == y[i / 2]);
        }
        assert(workspace::member_name(a) =~= workspace::member_name(b));
    }
}

/// What each command does in a workspace.
pub proof fn law_commands_do_what_they_are_for()
    ensures
        workspace::local_action("semantic"@) == Some(LocalAction::Semantic),
        workspace::local_action("ws"@) == Some(LocalAction::Inspect),
        workspace::local_action("more"@) == Some(LocalAction::More),
        workspace::local_action("show"@) == Some(LocalAction::Show),
        workspace::local_action("ctx"@) == Some(LocalAction::Context),
        forall|verb: Seq<char>|
            verb == "hist"@ || verb == "since"@ || verb == "diff"@ || verb == "blame"@
                ==> #[trigger] workspace::local_action(verb) == Some(LocalAction::History),
        forall|verb: Seq<char>|
            verb == "index"@ || verb == "init"@ || verb == "status"@ || verb == "doctor"@ || verb
                == "hist-index"@ || verb == "hist-status"@ || verb == "session"@ || verb
                == "audit"@ || verb == "forget-logs"@ || verb == "semantic-check"@
                ==> #[trigger] workspace::local_action(verb) == Some(LocalAction::Owner),
        forall|verb: Seq<char>|
            verb == "search"@ || verb == "refs"@ || verb == "map"@
                ==> #[trigger] workspace::local_action(verb) == Some(LocalAction::Search),
{
    reveal_strlit("semantic");
    reveal_strlit("ws");
    reveal_strlit("more");
    reveal_strlit("show");
    reveal_strlit("ctx");
    reveal_strlit("hist");
    reveal_strlit("since");
    reveal_strlit("diff");
    reveal_strlit("blame");
    reveal_strlit("index");
    reveal_strlit("init");
    reveal_strlit("status");
    reveal_strlit("doctor");
    reveal_strlit("hist-index");
    reveal_strlit("hist-status");
    reveal_strlit("session");
    reveal_strlit("audit");
    reveal_strlit("forget-logs");
    reveal_strlit("semantic-check");
    reveal_strlit("search");
    reveal_strlit("refs");
    reveal_strlit("map");
    assert("semantic"@.len() == 8 && "semantic"@[0] == 's' && "semantic"@[1] == 'e');
    assert("ws"@.len() == 2 && "ws"@[0] == 'w' && "ws"@[1] == 's');
    assert("more"@.len() == 4 && "more"@[0] == 'm' && "more"@[1] == 'o');
    assert("show"@.len() == 4 && "show"@[0] == 's' && "show"@[1] == 'h');
    assert("ctx"@.len() == 3 && "ctx"@[0] == 'c' && "ctx"@[1] == 't');
    assert("hist"@.len() == 4 && "hist"@[0] == 'h' && "hist"@[1] == 'i');
    assert("since"@.len() == 5 && "since"@[0] == 's' && "since"@[1] == 'i');
    assert("diff"@.len() == 4 && "diff"@[0] == 'd' && "diff"@[1] == 'i');
    assert("blame"@.len() == 5 && "blame"@[0] == 'b' && "blame"@[1] == 'l');
    assert("index"@.len() == 5 && "index"@[0] == 'i' && "index"@[1] == 'n');
    assert("init"@.len() == 4 && "init"@[0] == 'i' && "init"@[1] == 'n');
    assert("status"@.len() == 6 && "status"@[0] == 's' && "status"@[1] == 't');
    assert("doctor"@.len() == 6 && "doctor"@[0] == 'd' && "doctor"@[1] == 'o');
    assert("hist-index"@.len() == 10 && "hist-index"@[0] == 'h' && "hist-index"@[1] == 'i');
    assert("hist-status"@.len() == 11 && "hist-status"@[0] == 'h' && "hist-status"@[1] == 'i');
    assert("session"@.len() == 7 && "session"@[0] == 's' && "session"@[1] == 'e');
    assert("audit"@.len() == 5 && "audit"@[0] == 'a' && "audit"@[1] == 'u');
    assert("forget-logs"@.len() == 11 && "forget-logs"@[0] == 'f' && "forget-logs"@[1] == 'o');
    assert("semantic-check"@.len() == 14 && "semantic-check"@[0] == 's' && "semantic-check"@[1] == 'e');
    assert("search"@.len() == 6 && "search"@[0] == 's' && "search"@[1] == 'e');
    assert("refs"@.len() == 4 && "refs"@[0] == 'r' && "refs"@[1] == 'e');
    assert("map"@.len() == 3 && "map"@[0] == 'm' && "map"@[1] == 'a');
}

/// A command that is none of these is refused.
pub proof fn law_other_commands_are_refused(verb: Seq<char>, words: int)
    requires
        verb != "semantic"@ && verb != "ws"@ && verb != "more"@ && verb != "show"@ && verb
            != "ctx"@,
        verb != "hist"@ && verb != "since"@ && verb != "diff"@ && verb != "blame"@,
        verb != "index"@ && verb != "init"@ && verb != "status"@ && verb != "doctor"@,
        verb != "hist-index"@ && verb != "hist-status"@ && verb != "session"@ && verb != "audit"@,
        verb != "forget-logs"@ && verb != "semantic-check"@,
        verb != "search"@ && verb != "refs"@ && verb != "map"@,
    ensures
        workspace::local_action(verb) is None,
        workspace::local_fault(verb, words) is Some,
        verb == "serve"@ || verb == "history-serve"@ || verb == "workspace-serve"@
            ==> workspace::local_fault(verb, words) == Some(
            "invalid_command: internal server command"@,
        ),
{
}

/// Whether a root may be proposed as a member: it is a directory with a name that is valid, and
/// with a path that can be written.
pub open spec fn may_be_member(root: DiscoveredRoot) -> bool {
    root.is_directory && root.name is Some && root.name_is_valid && root.path is Some
}

/// What is proposed has a member for each root, in order, with its name and its path; all of them
/// may be members, and no two have the same name.
pub proof fn law_proposed_members_are_the_roots(
    found: Seq<Result<DiscoveredRoot, Failure>>,
    members: Seq<ProposedMember>,
)
    requires
        workspace::proposes(found, members),
    ensures
        members.len() == found.len(),
        forall|i: int|
            0 <= i < found.len() ==> {
                &&& (#[trigger] found[i]) is Ok
                &&& may_be_member(found[i]->Ok_0)
                &&& members[i].name@ == found[i]->Ok_0.name->0@
                &&& members[i].path@ == found[i]->Ok_0.path->0@
            },
        forall|i: int, j: int|
            0 <= i < j < members.len() ==> (#[trigger] members[i]).name@ != (
            #[trigger] members[j]).name@,
{
}

/// Roots that may be members, with different names, are proposed.
pub proof fn law_good_roots_are_proposed(
    found: Seq<Result<DiscoveredRoot, Failure>>,
    members: Seq<ProposedMember>,
)
    requires
        members.len() == found.len(),
        forall|i: int|
            0 <= i < found.len() ==> {
                &&& (#[trigger] found[i]) is Ok
                &&& may_be_member(found[i]->Ok_0)
                &&& members[i].name@ == found[i]->Ok_0.name->0@
                &&& members[i].path@ == found[i]->Ok_0.path->0@
            },
        forall|i: int, j: int|
            0 <= i < j < members.len() ==> (#[trigger] members[i]).name@ != (
            #[trigger] members[j]).name@,
    ensures
        workspace::proposes(found, members),
{
    assert forall|i: int| 0 <= i < found.len() implies {
        &&& (#[trigger] found[i]) is Ok
        &&& workspace::discovery_fault(found[i]->Ok_0, members.take(i)) is None
        &&& members[i].name@ == found[i]->Ok_0.name->0@
        &&& members[i].path@ == found[i]->Ok_0.path->0@
    } by {
        let before = members.take(i);
        if workspace::taken(before, found[i]->Ok_0.name->0@) {
            let k = choose|k: int|
                0 <= k < before.len() && (#[trigger] before[k]).name@ == found[i]->Ok_0.name->0@;
            assert(members[k].name@ != members[i].name@);
        }
    }
}

/// Whether a value is a table that has a value under a name.
pub open spec fn has_entry(table: Toml, name: Seq<char>, value: Toml) -> bool {
    table matches Toml::Table(entries) && entries.contains_key(name) && entries[name] == value
}

/// The table that a configuration has for its members.
pub open spec fn member_entries(table: Toml) -> Map<Seq<char>, Toml> {
    table->Table_0["members"@]->Table_0
}

proof fn lemma_member_entries(members: Seq<ProposedMember>)
    requires
        proposal::names_differ(members),
    ensures
        forall|i: int|
            0 <= i < members.len() ==> proposal::member_table(members).contains_key(
                (#[trigger] members[i]).name@,
            ) && proposal::member_table(members)[members[i].name@] == proposal::one_entry(
                "path"@,
                Toml::Text(members[i].path@),
            ),
        forall|name: Seq<char>| #[trigger]
            proposal::member_table(members).contains_key(name) ==> exists|i: int|
                0 <= i < members.len() && (#[trigger] members[i]).name@ == name,
    decreases members.len(),
{
    if members.len() > 0 {
        let less = members.drop_last();
        let last = members.len() - 1;
        assert forall|i: int, j: int| 0 <= i < j < less.len() implies (#[trigger] less[i]).name@
            != (#[trigger] less[j]).name@ by {
            assert(less[i] == members[i] && less[j] == members[j]);
        }
        lemma_member_entries(less);
        let table = proposal::member_table(members);
        assert forall|i: int| 0 <= i < members.len() implies table.contains_key(
            (#[trigger] members[i]).name@,
        ) && table[members[i].name@] == proposal::one_entry(
            "path"@,
            Toml::Text(members[i].path@),
        ) by {
            if i < last {
                assert(less[i] == members[i]);
                assert(members[i].name@ != members[last].name@);
            }
        }
        assert forall|name: Seq<char>| #[trigger] table.contains_key(name) implies exists|i: int|
            0 <= i < members.len() && (#[trigger] members[i]).name@ == name by {
            if name == members[last].name@ {
            } else {
                assert(proposal::member_table(less).contains_key(name));
                let i = choose|i: int| 0 <= i < less.len() && (#[trigger] less[i]).name@ == name;
                assert(members[i].name@ == name);
            }
        }
    }
}

/// A proposed configuration names the workspace, and has just its members: each with its path.
pub proof fn law_proposals_hold_every_member(members: Seq<ProposedMember>, name: Seq<char>)
    requires
        proposal::names_differ(members),
    ensures
        ({
            let whole = proposal::proposal(members);
            let table = member_entries(whole);
            &&& has_entry(whole, "members"@, Toml::Table(table))
            &&& has_entry(whole, "workspace"@, whole->Table_0["workspace"@])
            &&& has_entry(whole->Table_0["workspace"@], "name"@, Toml::Text("workspace"@))
            &&& forall|i: int|
                0 <= i < members.len() ==> table.contains_key((#[trigger] members[i]).name@)
                    && has_entry(
                    table[members[i].name@],
                    "path"@,
                    Toml::Text(members[i].path@),
                )
            &&& table.contains_key(name) ==> exists|i: int|
                0 <= i < members.len() && (#[trigger] members[i]).name@ == name
        }),
{
    reveal_strlit("workspace");
    reveal_strlit("members");
    assert("workspace"@.len() != "members"@.len());
    lemma_member_entries(members);
    let whole = proposal::proposal(members);
    assert(member_entries(whole) == proposal::member_table(members));
    assert forall|i: int| 0 <= i < members.len() implies member_entries(whole).contains_key(
        (#[trigger] members[i]).name@,
    ) && has_entry(
        member_entries(whole)[members[i].name@],
        "path"@,
        Toml::Text(members[i].path@),
    ) by {
        assert(proposal::member_table(members).contains_key(members[i].name@));
    }
}

/// A request is for its first word, and one without words for the state.
pub proof fn law_requests_are_for_their_first_word(words: Seq<String>)
    ensures
        words.len() > 0 ==> workspace::verb_of(words) == words.first()@,
        words.len() == 0 ==> workspace::verb_of(words) == "status"@,
{
}

} // verus!
