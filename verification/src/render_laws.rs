//! What every page shows, whatever is asked for.

use vstd::prelude::*;
use crate::ordered::TextMap;
use crate::render::form_encoded;
use crate::render::heads_script;
use crate::render::item_class;
use crate::render::links_version;
use crate::render::nearest_tenths;
use crate::render::role_label_text;
use crate::render::role_link;
use crate::render::role_text;
use crate::render::selected_skill;
use crate::render::shown_skill;
use crate::render::shows_detail;
use crate::render::shows_skill;
use crate::render::size_text;
use crate::render::skill_link;
use crate::render::CatalogEntryView;
use crate::render::ScriptHeading;
use crate::render::SessionRole;
use crate::render::SkillDetail;
use crate::render::SkillGroups;
use crate::render::SkillRecord;
use crate::render::SkillScript;
use crate::text::decimal_text;
use crate::text::text_lt;

verus! {

/// A page shows the version that was asked for, where the skill has it, and the current one
/// otherwise.
pub proof fn lemma_shown_version(skill: SkillRecord, requested: u64)
    ensures
        skill.shown_version(None) == skill.current_version,
        (exists|place: int|
            0 <= place < skill.versions@.len() && (#[trigger] skill.versions@[place]).version
                == requested) ==> skill.shown_version(Some(requested)) == requested,
        (forall|place: int|
            0 <= place < skill.versions@.len() ==> (#[trigger] skill.versions@[place]).version
                != requested) ==> skill.shown_version(Some(requested)) == skill.current_version,
{
    if exists|place: int|
        0 <= place < skill.versions@.len() && (#[trigger] skill.versions@[place]).version == requested {
        let place = choose|place: int|
            0 <= place < skill.versions@.len() && (#[trigger] skill.versions@[place]).version
                == requested;
        assert(skill.version_at(requested, place));
        assert(skill.has_version(requested));
    }
    if skill.has_version(requested) {
        let place = choose|place: int| skill.version_at(requested, place);
        assert(skill.versions@[place].version == requested);
    }
}

/// A page shows the skill that was asked for, where the role has it, and otherwise the one whose
/// name comes first.
pub proof fn lemma_shown_skill(skills: TextMap<SkillRecord>, requested: Seq<char>, other: Seq<char>)
    requires
        skills.wf(),
        skills@.contains_key(other),
    ensures
        skills@.contains_key(requested) ==> shown_skill(skills, Some(requested)) == Some(requested),
        !skills@.contains_key(requested) ==> shown_skill(skills, Some(requested)) == shown_skill(
            skills,
            None,
        ),
        shown_skill(skills, None) matches Some(first) && skills@.contains_key(first) && !text_lt(
            other,
            first,
        ),
{
    skills.lemma_keys();
    let keys = skills.keys();
    assert(keys.contains(other)) by {
        assert(skills@.dom().contains(other));
        assert(keys.to_set().contains(other));
    }
    let n = keys.index_of(other);
    assert(keys.to_set().contains(keys[0]));
    assert(skills@.dom().contains(keys[0]));
    if text_lt(other, keys[0]) {
        if n > 0 {
            assert(text_lt(keys[0], keys[n]));
            crate::text::lemma_text_lt_asymmetric(keys[0], keys[n]);
        } else {
            crate::text::lemma_text_lt_irreflexive(other);
        }
    }
}

/// The skill that is selected is one of the role that was asked for, under the name that is shown.
pub proof fn lemma_selected_skill(groups: SkillGroups, role: SessionRole, requested: Seq<char>)
    ensures
        role == SessionRole::Orchestrator && groups.orchestrator@.contains_key(requested)
            ==> selected_skill(groups, role, Some(requested)) == Some(groups.orchestrator@[requested]),
        role == SessionRole::Runner && groups.runner@.contains_key(requested) ==> selected_skill(
            groups,
            role,
            Some(requested),
        ) == Some(groups.runner@[requested]),
{
}

/// A link stands out exactly where it is active: its class then has a word more.
pub proof fn lemma_active_class(name: Seq<char>, active: bool)
    ensures
        item_class(name, false) == name,
        item_class(name, true) == name + " active"@,
        item_class(name, true) != item_class(name, false),
        name.is_prefix_of(item_class(name, active)),
{
    reveal_strlit(" active");
    assert(" active"@.len() == 7);
    assert(item_class(name, true).len() == name.len() + 7);
    assert(item_class(name, active).take(name.len() as int) =~= name);
}

/// Links and words of different roles differ.
pub proof fn lemma_roles_differ(a: SessionRole, b: SessionRole)
    requires
        role_text(a) == role_text(b) || role_label_text(a) == role_label_text(b) || role_link(a)
            == role_link(b),
    ensures
        a == b,
{
    reveal_strlit("orchestrator");
    reveal_strlit("runner");
    reveal_strlit("Orchestrator");
    reveal_strlit("Runner");
    assert("orchestrator"@.len() == 12 && "runner"@.len() == 6);
    assert("Orchestrator"@.len() == 12 && "Runner"@.len() == 6);
    assert(role_link(a).len() == "/skills?role="@.len() + role_text(a).len());
    assert(role_link(b).len() == "/skills?role="@.len() + role_text(b).len());
}

/// An entry of the catalog names its skill and the current version of it, links to that version,
/// and stands out exactly where the skill is the selected one. What it says is the description of
/// the current version.
pub proof fn lemma_catalog_entry(
    entry: CatalogEntryView,
    role: SessionRole,
    skill: SkillRecord,
    selected: Option<Seq<char>>,
    place: int,
)
    requires
        skill.wf(),
        shows_skill(entry, role, skill, selected),
        0 <= place < skill.versions@.len(),
    ensures
        entry.name == skill.name@,
        entry.version == seq!['v'] + decimal_text(skill.current_version as nat),
        entry.href == skill_link(role, skill.name@, Some(skill.current_version)),
        entry.class == "skill-list-item"@ + " active"@ <==> selected == Some(skill.name@),
        entry.class == "skill-list-item"@ <==> selected != Some(skill.name@),
        skill.versions@[place].version == skill.current_version ==> entry.summary
            == skill.versions@[place].description@,
{
    lemma_active_class("skill-list-item"@, true);
    reveal_strlit("v");
    assert("v"@ =~= seq!['v']);
    if skill.versions@[place].version == skill.current_version {
        assert(skill.version_at(skill.current_version, place));
        assert(skill.has_version(skill.current_version));
        let other = choose|other: int| #[trigger]
            skill.version_at(skill.current_version, other) && entry.summary
                == skill.versions@[other].description@;
        if other < place {
            assert(skill.versions@[other].version < skill.versions@[place].version);
        } else if place < other {
            assert(skill.versions@[place].version < skill.versions@[other].version);
        }
    }
}

/// Of the links to the versions of a skill, those to newer versions come first. The one to the
/// shown version stands out, and the one to the current version is marked, and no other.
#[verifier::rlimit(40)]
pub proof fn lemma_version_links(
    detail: SkillDetail,
    role: SessionRole,
    skill: SkillRecord,
    requested: Option<u64>,
    link: int,
    version: int,
)
    requires
        skill.wf(),
        shows_detail(Some(detail), role, skill, requested),
        0 <= version < skill.versions@.len(),
        link == skill.versions@.len() - 1 - version,
    ensures
        ({
            let number = skill.versions@[version].version;
            let shown = detail.versions@[link];
            &&& detail.versions@.len() == skill.versions@.len()
            &&& shown.label@ == seq!['v'] + decimal_text(number as nat)
            &&& shown.href@ == skill_link(role, skill.name@, Some(number))
            &&& shown.current <==> number == skill.current_version
            &&& shown.class@ == "skill-version-item"@ + " active"@ <==> version == detail.place
        }),
{
    lemma_active_class("skill-version-item"@, true);
    reveal_strlit("v");
    assert("v"@ =~= seq!['v']);
    let number = skill.versions@[version].version;
    let place = detail.place as int;
    let shown = skill.shown_version(requested);
    assert(skill.version_at(shown, place));
    assert(links_version(
        detail.versions@[link],
        role,
        skill,
        skill.versions@[detail.versions@.len() - 1 - link].version,
        shown,
    ));
    assert(detail.versions@.len() - 1 - link == version);
    if version < place {
        assert(skill.versions@[version].version < skill.versions@[place].version);
    } else if place < version {
        assert(skill.versions@[place].version < skill.versions@[version].version);
    }
}

/// The details of a skill are those of the shown version: its badge names it and says whether it
/// is the current one, and its scripts are listed in their order, each under its path, the first
/// one open.
#[verifier::rlimit(40)]
pub proof fn lemma_shown_detail(
    detail: SkillDetail,
    role: SessionRole,
    skill: SkillRecord,
    requested: Option<u64>,
    script: int,
)
    requires
        shows_detail(Some(detail), role, skill, requested),
    ensures
        ({
            let version = skill.versions@[detail.place as int];
            &&& 0 <= detail.place < skill.versions@.len()
            &&& version.version == skill.shown_version(requested)
            &&& detail.is_current <==> version.version == skill.current_version
            &&& (seq!['v'] + decimal_text(version.version as nat)).is_prefix_of(detail.badge@)
            &&& detail.badge@.len() == 1 + decimal_text(version.version as nat).len()
                <==> !detail.is_current
            &&& detail.script_count@ == decimal_text(version.scripts@.len())
            &&& detail.shim@ == "Enabled"@ <==> version.enable_coco_shim
            &&& detail.shim@ == "Disabled"@ <==> !version.enable_coco_shim
            &&& detail.scripts@.len() == version.scripts@.len()
            &&& 0 <= script < detail.scripts@.len() ==> {
                &&& detail.scripts@[script].path@ == version.scripts@[script].path@
                &&& detail.scripts@[script].open <==> script == 0
            }
        }),
{
    let version = skill.versions@[detail.place as int];
    reveal_strlit("v");
    reveal_strlit("");
    reveal_strlit(" · current");
    reveal_strlit("Enabled");
    reveal_strlit("Disabled");
    assert("Enabled"@.len() == 7 && "Disabled"@.len() == 8);
    assert("v"@ =~= seq!['v']);
    assert("v"@.len() == 1 && ""@.len() == 0 && " · current"@.len() == 10);
    let name = seq!['v'] + decimal_text(version.version as nat);
    assert(detail.badge@.take(name.len() as int) =~= name);
    assert(detail.badge@.len() == name.len() + if detail.is_current { 10int } else { 0int });
    if 0 <= script < detail.scripts@.len() {
        assert(heads_script(detail.scripts@[script], version.scripts@[script], script));
    }
}

/// A size below a kibibyte is named to the byte. Any other is named in kibibytes with one decimal,
/// and is off by at most half of its last digit.
pub proof fn lemma_size_text(bytes: nat)
    ensures
        bytes < 1024 ==> size_text(bytes) == decimal_text(bytes) + " B"@,
        bytes >= 1024 ==> exists|tenths: nat|
            size_text(bytes) == #[trigger] decimal_text(tenths / 10) + "."@ + decimal_text(tenths % 10)
                + " KiB"@ && -512 <= tenths * 1024 - bytes * 10 <= 512,
{
    if bytes >= 1024 {
        crate::render::lemma_size_is_near(bytes);
        let tenths = nearest_tenths(bytes as int) as nat;
        assert(size_text(bytes) == decimal_text(tenths / 10) + "."@ + decimal_text(tenths % 10) + " KiB"@);
    }
}

/// Letters, digits and the four plain signs stand in a link as they are, and a blank as a plus
/// sign.
pub proof fn lemma_plain_text_in_links(text: Seq<char>)
    requires
        forall|i: int|
            0 <= i < text.len() ==> ('a' <= #[trigger] text[i] <= 'z' || 'A' <= text[i] <= 'Z' || '0'
                <= text[i] <= '9' || text[i] == '-' || text[i] == '_' || text[i] == '.' || text[i] == '*'
                || text[i] == ' '),
    ensures
        form_encoded(text).len() == text.len(),
        forall|i: int|
            0 <= i < text.len() ==> #[trigger] form_encoded(text)[i] == if text[i] == ' ' {
                '+'
            } else {
                text[i]
            },
{
    vstd::utf8::is_ascii_chars_encode_utf8(text);
    let bytes = vstd::utf8::encode_utf8(text);
    lemma_plain_bytes(text, bytes);
}

proof fn lemma_plain_bytes(text: Seq<char>, bytes: Seq<u8>)
    requires
        text.len() == bytes.len(),
        forall|i: int| 0 <= i < text.len() ==> #[trigger] bytes[i] == text[i] as u8,
        forall|i: int|
            0 <= i < text.len() ==> ('a' <= #[trigger] text[i] <= 'z' || 'A' <= text[i] <= 'Z' || '0'
                <= text[i] <= '9' || text[i] == '-' || text[i] == '_' || text[i] == '.' || text[i] == '*'
                || text[i] == ' '),
    ensures
        crate::render::form_bytes(bytes).len() == text.len(),
        forall|i: int|
            0 <= i < text.len() ==> #[trigger] crate::render::form_bytes(bytes)[i] == if text[i] == ' ' {
                '+'
            } else {
                text[i]
            },
    decreases text.len(),
{
    if text.len() > 0 {
        let rest = text.drop_first();
        let tail = bytes.drop_first();
        assert forall|i: int| 0 <= i < rest.len() implies #[trigger] tail[i] == rest[i] as u8 by {
            assert(bytes[i + 1] == text[i + 1] as u8);
        }
        assert forall|i: int| 0 <= i < rest.len() implies ('a' <= #[trigger] rest[i] <= 'z' || 'A' <= rest[i]
            <= 'Z' || '0' <= rest[i] <= '9' || rest[i] == '-' || rest[i] == '_' || rest[i] == '.' || rest[i]
            == '*' || rest[i] == ' ') by {
            assert(rest[i] == text[i + 1]);
        }
        lemma_plain_bytes(rest, tail);
        let first = text[0];
        let byte = bytes[0];
        assert(byte == first as u8);
        assert(first as u32 <= 122);
        assert(byte as char == first);
        let head = crate::render::form_byte(byte);
        assert(head.len() == 1);
        let all = crate::render::form_bytes(bytes);
        assert(all == head + crate::render::form_bytes(tail));
        assert forall|i: int| 0 <= i < text.len() implies #[trigger] all[i] == if text[i] == ' ' {
            '+'
        } else {
            text[i]
        } by {
            if i > 0 {
                assert(all[i] == crate::render::form_bytes(tail)[i - 1]);
                assert(rest[i - 1] == text[i]);
            }
        }
    }
}

/// The number that a hexadecimal digit stands for.
pub open spec fn hexadecimal_value(digit: char) -> int {
    if '0' <= digit <= '9' {
        digit as int - '0' as int
    } else {
        digit as int - 'A' as int + 10
    }
}

/// Any other byte stands in a link as a percent sign and two hexadecimal digits, in upper case,
/// that name it.
pub proof fn lemma_other_bytes_in_links(byte: u8)
    requires
        !crate::render::form_unchanged(byte),
        byte != 32,
    ensures
        ({
            let text = crate::render::form_byte(byte);
            &&& text.len() == 3
            &&& text[0] == '%'
            &&& '0' <= text[1] <= '9' || 'A' <= text[1] <= 'F'
            &&& '0' <= text[2] <= '9' || 'A' <= text[2] <= 'F'
            &&& hexadecimal_value(text[1]) * 16 + hexadecimal_value(text[2]) == byte
        }),
{
    let high = byte / 16;
    let low = byte % 16;
    lemma_hexadecimal(high);
    lemma_hexadecimal(low);
}

proof fn lemma_hexadecimal(value: u8)
    requires
        value < 16,
    ensures
        ({
            let digit = crate::render::hex_digit(value);
            &&& '0' <= digit <= '9' || 'A' <= digit <= 'F'
            &&& hexadecimal_value(digit) == value
        }),
{
    let byte: u8 = if value < 10 {
        (48 + value) as u8
    } else {
        (55 + value) as u8
    };
    assert(byte as char as int == byte as int);
}

/// Of two tenths that are equally near to a size the even one is named.
pub proof fn lemma_size_ties(bytes: nat)
    requires
        bytes * 10 % 1024 == 512,
    ensures
        nearest_tenths(bytes as int) % 2 == 0,
{
}

/// The link to a version of a skill names the role, the skill and the version, in that order.
#[verifier::rlimit(40)]
pub proof fn lemma_skill_link_text(role: SessionRole, name: Seq<char>, version: u64)
    ensures
        skill_link(role, name, None) == "/skills?role="@ + role_text(role) + "&name="@ + form_encoded(name),
        skill_link(role, name, Some(version)) == skill_link(role, name, None) + "&version="@ + decimal_text(
            version as nat,
        ),
{
    reveal_strlit("role");
    reveal_strlit("name");
    reveal_strlit("version");
    reveal_strlit("orchestrator");
    reveal_strlit("runner");
    reveal_strlit("/skills?");
    reveal_strlit("/skills?role=");
    reveal_strlit("&name=");
    reveal_strlit("&version=");
    lemma_stays("role"@);
    lemma_stays("name"@);
    lemma_stays("version"@);
    lemma_stays(role_text(role));
    crate::numbers::lemma_digits_round_trip(version as nat);
    let digits = decimal_text(version as nat);
    assert forall|i: int| 0 <= i < digits.len() implies '0' <= #[trigger] digits[i] <= '9' by {
        assert(crate::numbers::is_digit(digits[i]));
    }
    lemma_stays(digits);
    assert("/skills?"@ + "role"@ + seq!['='] =~= "/skills?role="@);
    assert(seq!['&'] + "name"@ + seq!['='] =~= "&name="@);
    assert(seq!['&'] + "version"@ + seq!['='] =~= "&version="@);
    assert(skill_link(role, name, None) =~= "/skills?role="@ + role_text(role) + "&name="@ + form_encoded(
        name,
    ));
    assert(skill_link(role, name, Some(version)) =~= skill_link(role, name, None) + "&version="@ + digits);
}

proof fn lemma_stays(text: Seq<char>)
    requires
        forall|i: int|
            0 <= i < text.len() ==> ('a' <= #[trigger] text[i] <= 'z' || '0' <= text[i] <= '9'),
    ensures
        form_encoded(text) == text,
{
    lemma_plain_text_in_links(text);
    assert(form_encoded(text) =~= text);
}

/// The heading of a script names its language, which is what follows the last dot of its path, and
/// its size in bytes.
pub proof fn lemma_script_heading(heading: ScriptHeading, script: SkillScript, place: int, dot: int)
    requires
        heads_script(heading, script, place),
    ensures
        heading.path@ == script.path@,
        heading.size@ == size_text(vstd::utf8::encode_utf8(script.content@).len()),
        heading.language is None <==> !script.path@.contains('.'),
        0 <= dot < script.path@.len() && script.path@[dot] == '.' && (forall|i: int|
            dot < i < script.path@.len() ==> #[trigger] script.path@[i] != '.') ==> (
        heading.language matches Some(language) && language@ == script.path@.skip(dot + 1)),
{
    let path = script.path@;
    if 0 <= dot < path.len() && path[dot] == '.' && (forall|i: int|
        dot < i < path.len() ==> #[trigger] path[i] != '.') {
        let rest = path.skip(dot + 1);
        assert(path.contains('.'));
        assert(heading.language is Some);
        let language = heading.language->0@;
        assert(path.skip(dot) =~= seq!['.'] + rest);
        assert(path.len() - rest.len() - 1 == dot);
        assert(!rest.contains('.')) by {
            if rest.contains('.') {
                let k = rest.index_of('.');
                assert(path[dot + 1 + k] == '.');
            }
        }
        assert(crate::render::is_extension(path, rest));
        crate::render::lemma_extension_unique(path, language, rest);
    } else if heading.language is Some {
        let language = heading.language->0@;
        assert(path.skip(path.len() - language.len() - 1)[0] == '.');
        assert(path[path.len() - language.len() - 1] == '.');
    }
    if heading.language is Some {
        let language = heading.language->0@;
        assert(path.skip(path.len() - language.len() - 1)[0] == (seq!['.'] + language)[0]);
        assert(path[path.len() - language.len() - 1] == '.');
        assert(path.contains('.'));
    }
}

/// A truth value, a mode and a role are written out.
pub proof fn lemma_words()
    ensures
        crate::render::truth_text(true) == "true"@,
        crate::render::truth_text(false) == "false"@,
        crate::render::mode_label(crate::graph::GraphMode::Anchors) == "Anchors"@,
        crate::render::mode_label(crate::graph::GraphMode::All) == "All"@,
        role_text(SessionRole::Orchestrator) == "orchestrator"@,
        role_text(SessionRole::Runner) == "runner"@,
        role_label_text(SessionRole::Orchestrator) == "Orchestrator"@,
        role_label_text(SessionRole::Runner) == "Runner"@,
{
}

} // verus!
