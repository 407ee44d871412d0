//! What the pages of the console show: which skill and which version are selected, where the links
//! lead, and the words on them.

use vstd::prelude::*;
use vstd::string::*;
use vstd::utf8::encode_utf8;
use crate::graph::mode_text;
use crate::graph::GraphMode;
use crate::markdown::document_of;
use crate::markdown::markdown_document;
use crate::markdown_model::MarkdownDocument;
use crate::ordered::TextMap;
use crate::text::characters;
use crate::text::decimal;
use crate::text::decimal_text;
use crate::text::text_equal;
use crate::text::text_of;

verus! {

/// What a session is for.
#[derive(Debug, Clone, Copy, PartialEq, Eq, Structural)]
pub enum SessionRole {
    Orchestrator,
    Runner,
}

/// The text of a role in links.
pub open spec fn role_text(role: SessionRole) -> Seq<char> {
    match role {
        SessionRole::Orchestrator => "orchestrator"@,
        SessionRole::Runner => "runner"@,
    }
}

/// The words for a role.
pub open spec fn role_label_text(role: SessionRole) -> Seq<char> {
    match role {
        SessionRole::Orchestrator => "Orchestrator"@,
        SessionRole::Runner => "Runner"@,
    }
}

impl SessionRole {
    /// The text of this role in links.
    pub fn as_str(self) -> (text: &'static str)
        ensures
            text@ == role_text(self),
    {
        match self {
            SessionRole::Orchestrator => "orchestrator",
            SessionRole::Runner => "runner",
        }
    }

    /// The words for this role.
    pub fn label(self) -> (text: &'static str)
        ensures
            text@ == role_label_text(self),
    {
        match self {
            SessionRole::Orchestrator => "Orchestrator",
            SessionRole::Runner => "Runner",
        }
    }
}

/// The bytes that `application/x-www-form-urlencoded` leaves as they are: letters, digits and the
/// four signs `*`, `-`, `.` and `_`.
pub open spec fn form_unchanged(byte: u8) -> bool {
    ||| 48 <= byte <= 57
    ||| 65 <= byte <= 90
    ||| 97 <= byte <= 122
    ||| byte == 42 || byte == 45 || byte == 46 || byte == 95
}

/// A hexadecimal digit, in upper case.
pub open spec fn hex_digit(value: u8) -> char {
    if value < 10 {
        (48 + value) as u8 as char
    } else {
        (55 + value) as u8 as char
    }
}

/// A byte as `application/x-www-form-urlencoded` writes it.
pub open spec fn form_byte(byte: u8) -> Seq<char> {
    if form_unchanged(byte) {
        seq![byte as char]
    } else if byte == 32 {
        seq!['+']
    } else {
        seq!['%', hex_digit(byte / 16), hex_digit(byte % 16)]
    }
}

/// Bytes as `application/x-www-form-urlencoded` writes them.
pub open spec fn form_bytes(bytes: Seq<u8>) -> Seq<char>
    decreases bytes.len(),
{
    if bytes.len() == 0 {
        Seq::empty()
    } else {
        form_byte(bytes[0]) + form_bytes(bytes.drop_first())
    }
}

/// A text as `application/x-www-form-urlencoded` writes it.
pub open spec fn form_encoded(text: Seq<char>) -> Seq<char> {
    form_bytes(encode_utf8(text))
}

/// Calls `append_pair` of `url::form_urlencoded::Serializer` on what was written before. Claims
/// that a `&` follows what is there, if anything is, and then the encoded name, a `=` and the
/// encoded value.
#[verifier::external_body]
fn append_pair(query: String, name: &str, value: &str) -> (appended: String)
    ensures
        appended@ == query@ + (if query@.len() == 0 {
            Seq::empty()
        } else {
            seq!['&']
        }) + form_encoded(name@) + seq!['='] + form_encoded(value@),
{
    let mut serializer = url::form_urlencoded::Serializer::new(query);
    serializer.append_pair(name, value);
    serializer.finish()
}

/// The link to the skills of a role.
pub open spec fn role_link(role: SessionRole) -> Seq<char> {
    "/skills?role="@ + role_text(role)
}

/// The link to the skills of a role.
pub fn skill_role_href(role: SessionRole) -> (href: String)
    ensures
        href@ == role_link(role),
{
    "/skills?role=".to_owned().concat(role.as_str())
}

/// A name and a value as a query writes them.
pub open spec fn query_pair(name: Seq<char>, value: Seq<char>) -> Seq<char> {
    form_encoded(name) + seq!['='] + form_encoded(value)
}

/// The link to a skill, and to one of its versions.
pub open spec fn skill_link(role: SessionRole, name: Seq<char>, version: Option<u64>) -> Seq<char> {
    let query = query_pair("role"@, role_text(role)) + seq!['&'] + query_pair("name"@, name);
    "/skills?"@ + match version {
        Some(version) => query + seq!['&'] + query_pair("version"@, decimal_text(version as nat)),
        None => query,
    }
}

/// The link to a skill, and to one of its versions.
pub fn skill_href(role: SessionRole, name: &str, version: Option<u64>) -> (href: String)
    ensures
        href@ == skill_link(role, name@, version),
{
    let start = String::new();
    proof {
        assert(start@ =~= Seq::<char>::empty());
    }
    let with_role = append_pair(start, "role", role.as_str());
    assert(with_role@ =~= query_pair("role"@, role_text(role)));
    let with_name = append_pair(with_role, "name", name);
    assert(with_name@ =~= query_pair("role"@, role_text(role)) + seq!['&'] + query_pair(
        "name"@,
        name@,
    ));
    let query = match version {
        Some(version) => {
            let all = append_pair(with_name, "version", decimal(version).as_str());
            assert(all@ =~= query_pair("role"@, role_text(role)) + seq!['&'] + query_pair(
                "name"@,
                name@,
            ) + seq!['&'] + query_pair("version"@, decimal_text(version as nat)));
            all
        },
        None => with_name,
    };
    "/skills?".to_owned().concat(query.as_str())
}

proof fn lemma_hex_digits(a: u8, b: u8)
    requires
        a < 16,
        b < 16,
        hex_digit(a) == hex_digit(b),
    ensures
        a == b,
{
    let left = if a < 10 { (48 + a) as u8 } else { (55 + a) as u8 };
    let right = if b < 10 { (48 + b) as u8 } else { (55 + b) as u8 };
    assert(left as char as int == left as int);
    assert(right as char as int == right as int);
}

proof fn lemma_form_byte_start(byte: u8)
    ensures
        form_byte(byte)[0] == '%' <==> !form_unchanged(byte) && byte != 32,
        form_byte(byte)[0] == '+' <==> byte == 32,
        form_unchanged(byte) ==> form_byte(byte)[0] as int == byte,
{
    assert(byte as char as int == byte as int);
    assert('%' as int == 37);
    assert('+' as int == 43);
}

proof fn lemma_form_bytes_injective(a: Seq<u8>, b: Seq<u8>)
    requires
        form_bytes(a) == form_bytes(b),
    ensures
        a == b,
    decreases a.len(),
{
    if a.len() == 0 {
        if b.len() > 0 {
            assert(form_bytes(b).len() > 0);
        }
        assert(a =~= b);
    } else {
        assert(b.len() > 0);
        let text = form_bytes(a);
        let first = form_byte(a[0]);
        let second = form_byte(b[0]);
        lemma_form_byte_start(a[0]);
        lemma_form_byte_start(b[0]);
        assert(text[0] == first[0]);
        assert(form_bytes(b)[0] == second[0]);
        if first[0] == '%' {
            assert(text[1] == first[1] && text[2] == first[2]);
            assert(form_bytes(b)[1] == second[1] && form_bytes(b)[2] == second[2]);
            lemma_hex_digits(a[0] / 16, b[0] / 16);
            lemma_hex_digits(a[0] % 16, b[0] % 16);
        }
        assert(a[0] == b[0]);
        assert(form_bytes(a.drop_first()) =~= text.skip(first.len() as int));
        assert(form_bytes(b.drop_first()) =~= text.skip(first.len() as int));
        lemma_form_bytes_injective(a.drop_first(), b.drop_first());
        assert(a =~= seq![a[0]] + a.drop_first());
        assert(b =~= seq![b[0]] + b.drop_first());
    }
}

/// Different texts are encoded differently.
pub proof fn lemma_form_encoding_differs(a: Seq<char>, b: Seq<char>)
    requires
        form_encoded(a) == form_encoded(b),
    ensures
        a == b,
{
    lemma_form_bytes_injective(encode_utf8(a), encode_utf8(b));
    vstd::utf8::encode_utf8_decode_utf8(a);
    vstd::utf8::encode_utf8_decode_utf8(b);
}

/// Skills with different names have different links.
pub proof fn lemma_skill_links_differ(
    role: SessionRole,
    a: Seq<char>,
    b: Seq<char>,
    version: Option<u64>,
)
    requires
        skill_link(role, a, version) == skill_link(role, b, version),
    ensures
        a == b,
{
    let start = "/skills?"@ + (query_pair("role"@, role_text(role)) + seq!['&'] + (form_encoded(
        "name"@,
    ) + seq!['=']));
    let end = match version {
        Some(version) => seq!['&'] + query_pair("version"@, decimal_text(version as nat)),
        None => Seq::empty(),
    };
    let left = skill_link(role, a, version);
    let right = skill_link(role, b, version);
    assert(left =~= start + form_encoded(a) + end);
    assert(right =~= start + form_encoded(b) + end);
    assert(form_encoded(a).len() == form_encoded(b).len());
    assert(form_encoded(a) =~= left.subrange(start.len() as int, left.len() - end.len()));
    assert(form_encoded(b) =~= right.subrange(start.len() as int, right.len() - end.len()));
    lemma_form_encoding_differs(a, b);
}

/// Whether an extension is what follows the last dot of a path.
pub open spec fn is_extension(path: Seq<char>, extension: Seq<char>) -> bool {
    &&& !extension.contains('.')
    &&& extension.len() < path.len()
    &&& path.skip(path.len() - extension.len() - 1) == seq!['.'] + extension
}

/// The language of a script: what follows the last dot of its path.
pub fn script_language(path: &str) -> (language: Option<String>)
    ensures
        match language {
            Some(extension) => is_extension(path@, extension@),
            None => !path@.contains('.'),
        },
{
    let list = characters(path);
    let mut i: usize = list.len();
    while i > 0
        invariant
            list@ == path@,
            i <= list@.len(),
            forall|j: int| i <= j < list@.len() ==> #[trigger] list@[j] != '.',
        decreases i,
    {
        i -= 1;
        if list[i] == '.' {
            let extension = text_of(&list, i + 1, list.len());
            proof {
                assert(extension@ =~= path@.subrange(i + 1, path@.len() as int));
                assert forall|j: int| 0 <= j < extension@.len() implies extension@[j] != '.' by {
                    assert(extension@[j] == list@[i + 1 + j]);
                }
                assert(path@.skip(i as int) =~= seq!['.'] + extension@);
                assert(path@.len() - extension@.len() - 1 == i);
            }
            return Some(extension);
        }
    }
    None
}

/// A path has at most one extension.
pub proof fn lemma_extension_unique(path: Seq<char>, a: Seq<char>, b: Seq<char>)
    requires
        is_extension(path, a),
        is_extension(path, b),
    ensures
        a == b,
{
    let i = path.len() - a.len() - 1;
    let j = path.len() - b.len() - 1;
    assert(path.skip(i)[0] == '.');
    assert(path.skip(j)[0] == '.');
    if a.len() < b.len() {
        assert(path.skip(j)[i - j] == (seq!['.'] + b)[i - j]);
        assert(b[i - j - 1] == '.');
        assert(b.contains('.'));
    }
    if b.len() < a.len() {
        assert(path.skip(i)[j - i] == (seq!['.'] + a)[j - i]);
        assert(a[j - i - 1] == '.');
        assert(a.contains('.'));
    }
    assert(a =~= (seq!['.'] + a).skip(1));
    assert(b =~= (seq!['.'] + b).skip(1));
}

/// The number of tenths nearest to a number of 1024ths, an even one where two are as near.
pub open spec fn nearest_tenths(parts: int) -> int {
    let tenths = parts * 10 / 1024;
    let rest = parts * 10 % 1024;
    if rest > 512 || (rest == 512 && tenths % 2 == 1) {
        tenths + 1
    } else {
        tenths
    }
}

/// The words for a size in bytes.
pub open spec fn size_text(bytes: nat) -> Seq<char> {
    if bytes >= 1024 {
        let tenths = nearest_tenths(bytes as int);
        decimal_text((tenths / 10) as nat) + "."@ + decimal_text((tenths % 10) as nat) + " KiB"@
    } else {
        decimal_text(bytes) + " B"@
    }
}

proof fn lemma_tenths_split(bytes: int, whole: int, part: int, tenths: int, rest: int)
    requires
        bytes == whole * 1024 + part,
        part * 10 == tenths * 1024 + rest,
        0 <= whole,
        0 <= part < 1024,
        0 <= tenths < 10,
        0 <= rest < 1024,
    ensures
        ({
            let rounded = if rest > 512 || (rest == 512 && tenths % 2 == 1) {
                tenths + 1
            } else {
                tenths
            };
            &&& nearest_tenths(bytes) == whole * 10 + rounded
            &&& nearest_tenths(bytes) / 10 == (if rounded == 10 {
                whole + 1
            } else {
                whole
            })
            &&& nearest_tenths(bytes) % 10 == (if rounded == 10 {
                0
            } else {
                rounded
            })
        }),
{
    let all = bytes * 10;
    assert(all == (whole * 10 + tenths) * 1024 + rest);
    vstd::arithmetic::div_mod::lemma_fundamental_div_mod_converse(
        all,
        1024,
        whole * 10 + tenths,
        rest,
    );
    assert((whole * 10 + tenths) % 2 == tenths % 2);
}

/// The words for a size in bytes.
pub fn format_script_size(bytes: usize) -> (text: String)
    ensures
        text@ == size_text(bytes as nat),
{
    if bytes < 1024 {
        return decimal(bytes as u64).concat(" B");
    }
    let whole: u64 = bytes as u64 / 1024;
    let part: u64 = bytes as u64 % 1024;
    let tenths: u64 = part * 10 / 1024;
    let rest: u64 = part * 10 % 1024;
    let rounded: u64 = if rest > 512 || (rest == 512 && tenths % 2 == 1) {
        tenths + 1
    } else {
        tenths
    };
    let kibibytes: u64 = if rounded == 10 {
        whole + 1
    } else {
        whole
    };
    let digit: u64 = if rounded == 10 {
        0
    } else {
        rounded
    };
    proof {
        lemma_tenths_split(bytes as int, whole as int, part as int, tenths as int, rest as int);
    }
    decimal(kibibytes).concat(".").concat(decimal(digit).as_str()).concat(" KiB")
}

/// The words for a size are off by at most half a tenth of a kibibyte.
pub proof fn lemma_size_is_near(bytes: nat)
    ensures
        -512 <= nearest_tenths(bytes as int) * 1024 - bytes * 10 <= 512,
{
}

/// The words for a size do not go down where the size goes up.
pub proof fn lemma_size_is_monotone(smaller: nat, larger: nat)
    requires
        smaller <= larger,
    ensures
        nearest_tenths(smaller as int) <= nearest_tenths(larger as int),
{
    let a = smaller * 10 / 1024;
    let b = larger * 10 / 1024;
    assert(a <= b) by {
        vstd::arithmetic::div_mod::lemma_div_is_ordered(
            (smaller * 10) as int,
            (larger * 10) as int,
            1024,
        );
    }
}

/// The class of an item of a list of links.
pub open spec fn item_class(name: Seq<char>, active: bool) -> Seq<char> {
    if active {
        name + " active"@
    } else {
        name
    }
}

/// The class of a link between the pages.
pub fn app_nav_class(active: bool) -> (class: &'static str)
    ensures
        class@ == item_class("app-nav-item"@, active),
{
    proof {
        reveal_strlit("app-nav-item active");
        reveal_strlit("app-nav-item");
        reveal_strlit(" active");
        assert("app-nav-item active"@ =~= "app-nav-item"@ + " active"@);
    }
    if active {
        "app-nav-item active"
    } else {
        "app-nav-item"
    }
}

/// The class of a link between the modes.
pub fn mode_switch_class(active: bool) -> (class: &'static str)
    ensures
        class@ == item_class("mode-switch-item"@, active),
{
    proof {
        reveal_strlit("mode-switch-item active");
        reveal_strlit("mode-switch-item");
        reveal_strlit(" active");
        assert("mode-switch-item active"@ =~= "mode-switch-item"@ + " active"@);
    }
    if active {
        "mode-switch-item active"
    } else {
        "mode-switch-item"
    }
}

/// The class of a skill in the catalog.
pub fn skill_list_class(active: bool) -> (class: &'static str)
    ensures
        class@ == item_class("skill-list-item"@, active),
{
    proof {
        reveal_strlit("skill-list-item active");
        reveal_strlit("skill-list-item");
        reveal_strlit(" active");
        assert("skill-list-item active"@ =~= "skill-list-item"@ + " active"@);
    }
    if active {
        "skill-list-item active"
    } else {
        "skill-list-item"
    }
}

/// The class of a role in the catalog.
pub fn skill_role_class(active: bool) -> (class: &'static str)
    ensures
        class@ == item_class("skill-role-item"@, active),
{
    proof {
        reveal_strlit("skill-role-item active");
        reveal_strlit("skill-role-item");
        reveal_strlit(" active");
        assert("skill-role-item active"@ =~= "skill-role-item"@ + " active"@);
    }
    if active {
        "skill-role-item active"
    } else {
        "skill-role-item"
    }
}

/// The class of a version of a skill.
pub fn skill_version_class(active: bool) -> (class: &'static str)
    ensures
        class@ == item_class("skill-version-item"@, active),
{
    proof {
        reveal_strlit("skill-version-item active");
        reveal_strlit("skill-version-item");
        reveal_strlit(" active");
        assert("skill-version-item active"@ =~= "skill-version-item"@ + " active"@);
    }
    if active {
        "skill-version-item active"
    } else {
        "skill-version-item"
    }
}

/// What the page of the graph shows around the graph.
#[derive(Debug, Clone, PartialEq, Eq)]
pub struct GraphPage {
    pub version: String,
    pub mode: &'static str,
    pub stats: String,
    pub anchors_class: &'static str,
    pub all_class: &'static str,
    /// Which drawer is open at the start.
    pub open_drawer: Option<&'static str>,
    pub detail_expanded: &'static str,
    pub detail_hidden: &'static str,
    pub detail_inert: bool,
}

/// The words for a mode.
pub open spec fn mode_label(mode: GraphMode) -> Seq<char> {
    match mode {
        GraphMode::Anchors => "Anchors"@,
        GraphMode::All => "All"@,
    }
}

/// The text of a truth value.
pub open spec fn truth_text(value: bool) -> Seq<char> {
    if value {
        "true"@
    } else {
        "false"@
    }
}

fn truth(value: bool) -> (text: &'static str)
    ensures
        text@ == truth_text(value),
{
    if value {
        "true"
    } else {
        "false"
    }
}

/// Decides what the page of the graph shows around the graph. The drawer with the details is open
/// where a node was asked for.
pub fn graph_page(mode: GraphMode, revision: u64, node_requested: bool) -> (page: GraphPage)
    ensures
        page.version@ == decimal_text(revision as nat),
        page.mode@ == mode_text(mode),
        page.stats@ == mode_label(mode) + " / revision "@ + decimal_text(revision as nat),
        page.anchors_class@ == item_class("mode-switch-item"@, mode == GraphMode::Anchors),
        page.all_class@ == item_class("mode-switch-item"@, mode == GraphMode::All),
        page.open_drawer is Some <==> node_requested,
        page.open_drawer matches Some(drawer) ==> drawer@ == "node-detail"@,
        page.detail_expanded@ == truth_text(node_requested),
        page.detail_hidden@ == truth_text(!node_requested),
        page.detail_inert == !node_requested,
{
    let label = match mode {
        GraphMode::Anchors => "Anchors",
        GraphMode::All => "All",
    };
    GraphPage {
        version: decimal(revision),
        mode: mode.as_query_value(),
        stats: label.to_owned().concat(" / revision ").concat(decimal(revision).as_str()),
        anchors_class: mode_switch_class(mode == GraphMode::Anchors),
        all_class: mode_switch_class(mode == GraphMode::All),
        open_drawer: if node_requested {
            Some("node-detail")
        } else {
            None
        },
        detail_expanded: truth(node_requested),
        detail_hidden: truth(!node_requested),
        detail_inert: !node_requested,
    }
}

/// A script that belongs to a skill.
#[derive(Debug, Clone, PartialEq, Eq)]
pub struct SkillScript {
    pub path: String,
    pub content: String,
}

/// A version of a skill.
#[derive(Debug, Clone, PartialEq, Eq)]
pub struct SkillVersion {
    pub version: u64,
    pub id: String,
    pub created_at: String,
    pub description: String,
    pub body: String,
    pub scripts: Vec<SkillScript>,
    pub enable_coco_shim: bool,
}

/// A skill with its versions, the oldest first.
#[derive(Debug, Clone, PartialEq, Eq)]
pub struct SkillRecord {
    pub name: String,
    pub current_version: u64,
    pub versions: Vec<SkillVersion>,
}

impl SkillRecord {
    /// Every version has a number of its own, and they stand in its order.
    pub open spec fn wf(&self) -> bool {
        forall|i: int, j: int|
            0 <= i < j < self.versions@.len() ==> (#[trigger] self.versions@[i]).version < (
            #[trigger] self.versions@[j]).version
    }

    /// Whether a version stands at a place.
    pub open spec fn version_at(&self, version: u64, place: int) -> bool {
        0 <= place < self.versions@.len() && self.versions@[place].version == version
    }

    /// Whether there is a version.
    pub open spec fn has_version(&self, version: u64) -> bool {
        exists|place: int| self.version_at(version, place)
    }

    /// Finds a version.
    pub fn find_version(&self, version: u64) -> (place: Option<usize>)
        requires
            self.wf(),
        ensures
            match place {
                Some(place) => self.version_at(version, place as int),
                None => !self.has_version(version),
            },
    {
        let mut i: usize = 0;
        while i < self.versions.len()
            invariant
                0 <= i <= self.versions.len(),
                forall|j: int| 0 <= j < i ==> !#[trigger] self.version_at(version, j),
            decreases self.versions.len() - i,
        {
            if self.versions[i].version == version {
                assert(self.version_at(version, i as int));
                return Some(i);
            }
            assert(!self.version_at(version, i as int));
            i += 1;
        }
        assert forall|place: int| !self.version_at(version, place) by {
            if 0 <= place < i {
                assert(!self.version_at(version, place));
            }
        }
        None
    }

    /// The version that a page shows: the one that was asked for, where there is one, else the
    /// current one.
    pub open spec fn shown_version(&self, requested: Option<u64>) -> u64 {
        match requested {
            Some(version) => if self.has_version(version) {
                version
            } else {
                self.current_version
            },
            None => self.current_version,
        }
    }

    /// Finds the version that a page shows, and its place.
    pub fn select_version(&self, requested: Option<u64>) -> (selected: Option<usize>)
        requires
            self.wf(),
        ensures
            match selected {
                Some(place) => self.version_at(self.shown_version(requested), place as int),
                None => !self.has_version(self.shown_version(requested)),
            },
    {
        if let Some(version) = requested {
            if let Some(place) = self.find_version(version) {
                assert(self.has_version(version));
                return Some(place);
            }
        }
        self.find_version(self.current_version)
    }
}

/// The skill that a page shows: the one that was asked for, where there is one, else the first.
pub open spec fn shown_skill(skills: TextMap<SkillRecord>, requested: Option<Seq<char>>) -> Option<
    Seq<char>,
> {
    match requested {
        Some(name) => if skills@.contains_key(name) {
            Some(name)
        } else if skills.keys().len() > 0 {
            Some(skills.keys()[0])
        } else {
            None
        },
        None => if skills.keys().len() > 0 {
            Some(skills.keys()[0])
        } else {
            None
        },
    }
}

/// A text that may be missing, as characters.
pub open spec fn optional_str(value: Option<&str>) -> Option<Seq<char>> {
    match value {
        Some(text) => Some(text@),
        None => None,
    }
}

/// Finds the skill that a page shows.
pub fn select_skill(skills: &TextMap<SkillRecord>, requested: Option<&str>) -> (selected: Option<String>)
    requires
        skills.wf(),
    ensures
        match selected {
            Some(name) => shown_skill(*skills, optional_str(requested)) == Some(name@),
            None => shown_skill(*skills, optional_str(requested)) is None,
        },
{
    if let Some(name) = requested {
        if skills.contains_key(name) {
            return Some(name.to_owned());
        }
    }
    if skills.len() > 0 {
        Some(skills.key_at(0).clone())
    } else {
        None
    }
}

/// A page shows a skill exactly where there is one for the role.
pub proof fn lemma_some_skill_is_shown(skills: TextMap<SkillRecord>, requested: Option<Seq<char>>)
    requires
        skills.wf(),
    ensures
        shown_skill(skills, requested) is Some <==> skills.keys().len() > 0,
        shown_skill(skills, requested) matches Some(name) ==> skills@.contains_key(name),
{
    skills.lemma_keys();
}

/// The words for a count of skills.
pub fn skill_stats(orchestrator_count: usize, runner_count: usize) -> (text: String)
    requires
        orchestrator_count + runner_count <= usize::MAX,
    ensures
        text@ == decimal_text((orchestrator_count + runner_count) as nat) + " skills"@,
{
    decimal((orchestrator_count + runner_count) as u64).concat(" skills")
}

/// A skill in the catalog.
#[derive(Debug, Clone, PartialEq, Eq)]
pub struct CatalogEntry {
    pub name: String,
    pub href: String,
    pub class: &'static str,
    pub version: String,
    pub summary: String,
}

/// A skill in the catalog with its texts as characters.
#[verifier::ext_equal]
pub struct CatalogEntryView {
    pub name: Seq<char>,
    pub href: Seq<char>,
    pub class: Seq<char>,
    pub version: Seq<char>,
    pub summary: Seq<char>,
}

impl View for CatalogEntry {
    type V = CatalogEntryView;

    open spec fn view(&self) -> CatalogEntryView {
        CatalogEntryView {
            name: self.name@,
            href: self.href@,
            class: self.class@,
            version: self.version@,
            summary: self.summary@,
        }
    }
}

/// What is said of a skill: the description of its current version.
pub open spec fn is_summary(skill: SkillRecord, summary: Seq<char>) -> bool {
    if skill.has_version(skill.current_version) {
        exists|place: int| #[trigger]
            skill.version_at(skill.current_version, place) && summary
                == skill.versions@[place].description@
    } else {
        summary == "Missing current version"@
    }
}

/// Whether an entry of the catalog shows a skill.
pub open spec fn shows_skill(
    entry: CatalogEntryView,
    role: SessionRole,
    skill: SkillRecord,
    selected: Option<Seq<char>>,
) -> bool {
    &&& entry.name == skill.name@
    &&& entry.href == skill_link(role, skill.name@, Some(skill.current_version))
    &&& entry.class == item_class("skill-list-item"@, selected == Some(skill.name@))
    &&& entry.version == "v"@ + decimal_text(skill.current_version as nat)
    &&& is_summary(skill, entry.summary)
}

fn catalog_entry(role: SessionRole, skill: &SkillRecord, selected: Option<&str>) -> (entry: CatalogEntry)
    requires
        skill.wf(),
    ensures
        shows_skill(entry@, role, *skill, optional_str(selected)),
{
    let summary = match skill.find_version(skill.current_version) {
        Some(place) => {
            assert(skill.version_at(skill.current_version, place as int));
            skill.versions[place].description.clone()
        },
        None => "Missing current version".to_owned(),
    };
    let active = match selected {
        Some(name) => text_equal(name, skill.name.as_str()),
        None => false,
    };
    CatalogEntry {
        name: skill.name.clone(),
        href: skill_href(role, skill.name.as_str(), Some(skill.current_version)),
        class: skill_list_class(active),
        version: "v".to_owned().concat(decimal(skill.current_version).as_str()),
        summary,
    }
}

/// Lists the skills of a role, in the order of their names.
pub fn skill_catalog(role: SessionRole, skills: &TextMap<SkillRecord>, selected: Option<&str>) -> (entries:
    Vec<CatalogEntry>)
    requires
        skills.wf(),
        forall|name: Seq<char>| #[trigger] skills@.contains_key(name) ==> skills@[name].wf(),
    ensures
        entries@.len() == skills.keys().len(),
        forall|i: int|
            #![trigger entries@[i]]
            0 <= i < entries@.len() ==> shows_skill(
                entries@[i]@,
                role,
                skills@[skills.keys()[i]],
                optional_str(selected),
            ),
{
    let mut entries: Vec<CatalogEntry> = Vec::new();
    let mut i: usize = 0;
    while i < skills.len()
        invariant
            skills.wf(),
            forall|name: Seq<char>| #[trigger] skills@.contains_key(name) ==> skills@[name].wf(),
            0 <= i <= skills.keys().len(),
            entries@.len() == i,
            forall|j: int|
                #![trigger entries@[j]]
                0 <= j < i ==> shows_skill(
                    entries@[j]@,
                    role,
                    skills@[skills.keys()[j]],
                    optional_str(selected),
                ),
        decreases skills.keys().len() - i,
    {
        let skill = skills.value_at(i);
        entries.push(catalog_entry(role, skill, selected));
        i += 1;
    }
    entries
}

/// A link to the skills of a role.
#[derive(Debug, Clone, PartialEq, Eq)]
pub struct RoleLink {
    pub label: &'static str,
    pub href: String,
    pub class: &'static str,
    pub count: usize,
}

/// Makes a link to the skills of a role.
pub fn skill_role_link(role: SessionRole, active_role: SessionRole, count: usize) -> (link: RoleLink)
    ensures
        link.label@ == role_label_text(role),
        link.href@ == role_link(role),
        link.class@ == item_class("skill-role-item"@, role == active_role),
        link.count == count,
{
    RoleLink {
        label: role.label(),
        href: skill_role_href(role),
        class: skill_role_class(role == active_role),
        count,
    }
}

/// A link to a version of a skill.
#[derive(Debug, Clone, PartialEq, Eq)]
pub struct VersionLink {
    pub label: String,
    pub href: String,
    pub class: &'static str,
    /// Marks the current version.
    pub current: bool,
}

/// Whether a link leads to a version of a skill.
pub open spec fn links_version(
    link: VersionLink,
    role: SessionRole,
    skill: SkillRecord,
    version: u64,
    selected: u64,
) -> bool {
    &&& link.label@ == "v"@ + decimal_text(version as nat)
    &&& link.href@ == skill_link(role, skill.name@, Some(version))
    &&& link.class@ == item_class("skill-version-item"@, version == selected)
    &&& link.current == (version == skill.current_version)
}

/// Lists the versions of a skill, the newest first.
pub fn version_switch(role: SessionRole, skill: &SkillRecord, selected_version: u64) -> (links: Vec<
    VersionLink,
>)
    ensures
        links@.len() == skill.versions@.len(),
        forall|i: int|
            #![trigger links@[i]]
            0 <= i < links@.len() ==> links_version(
                links@[i],
                role,
                *skill,
                skill.versions@[links@.len() - 1 - i].version,
                selected_version,
            ),
{
    let mut links: Vec<VersionLink> = Vec::new();
    let count: usize = skill.versions.len();
    let mut i: usize = 0;
    while i < count
        invariant
            count == skill.versions@.len(),
            0 <= i <= count,
            links@.len() == i,
            forall|j: int|
                #![trigger links@[j]]
                0 <= j < i ==> links_version(
                    links@[j],
                    role,
                    *skill,
                    skill.versions@[count - 1 - j].version,
                    selected_version,
                ),
        decreases count - i,
    {
        let version: u64 = skill.versions[count - 1 - i].version;
        links.push(
            VersionLink {
                label: "v".to_owned().concat(decimal(version).as_str()),
                href: skill_href(role, skill.name.as_str(), Some(version)),
                class: skill_version_class(version == selected_version),
                current: version == skill.current_version,
            },
        );
        i += 1;
    }
    links
}

/// The words that mark a version.
pub open spec fn badge_text(version: u64, current: bool) -> Seq<char> {
    "v"@ + decimal_text(version as nat) + if current {
        " · current"@
    } else {
        ""@
    }
}

/// The words that mark a version.
pub fn version_badge(version: u64, current: bool) -> (text: String)
    ensures
        text@ == badge_text(version, current),
{
    let mark = if current {
        " · current"
    } else {
        ""
    };
    "v".to_owned().concat(decimal(version).as_str()).concat(mark)
}

/// How the instructions of a skill are shown.
pub enum Instructions {
    /// There are none.
    Empty,
    /// As the document that they are.
    Document { document: MarkdownDocument },
    /// As they stand, where they are no document.
    Source,
}

/// Decides how the instructions of a skill are shown.
pub fn skill_instructions(body: &str) -> (shown: Instructions)
    ensures
        match shown {
            Instructions::Empty => body@.len() == 0,
            Instructions::Document { document } => body@.len() > 0 && document_of(body@) == Some(
                document@,
            ),
            Instructions::Source => body@.len() > 0 && document_of(body@) is None,
        },
{
    if body.is_empty() {
        return Instructions::Empty;
    }
    match markdown_document(body) {
        Some(document) => Instructions::Document { document },
        None => Instructions::Source,
    }
}

/// How a script is shown.
#[derive(Debug, Clone, PartialEq, Eq)]
pub struct ScriptHeading {
    pub path: String,
    pub language: Option<String>,
    pub size: String,
    pub open: bool,
}

/// Whether a heading is that of a script. The first script is open.
pub open spec fn heads_script(heading: ScriptHeading, script: SkillScript, place: int) -> bool {
    &&& heading.path@ == script.path@
    &&& match heading.language {
        Some(extension) => is_extension(script.path@, extension@),
        None => !script.path@.contains('.'),
    }
    &&& heading.size@ == size_text(encode_utf8(script.content@).len())
    &&& heading.open == (place == 0)
}

/// Lists the headings of the scripts of a version.
pub fn script_headings(scripts: &Vec<SkillScript>) -> (headings: Vec<ScriptHeading>)
    ensures
        headings@.len() == scripts@.len(),
        forall|i: int|
            #![trigger headings@[i]]
            0 <= i < headings@.len() ==> heads_script(headings@[i], scripts@[i], i),
{
    let mut headings: Vec<ScriptHeading> = Vec::new();
    let mut i: usize = 0;
    while i < scripts.len()
        invariant
            0 <= i <= scripts.len(),
            headings@.len() == i,
            forall|j: int|
                #![trigger headings@[j]]
                0 <= j < i ==> heads_script(headings@[j], scripts@[j], j),
        decreases scripts.len() - i,
    {
        let script = &scripts[i];
        let bytes = script.content.as_str().as_bytes();
        headings.push(
            ScriptHeading {
                path: script.path.clone(),
                language: script_language(script.path.as_str()),
                size: format_script_size(bytes.len()),
                open: i == 0,
            },
        );
        i += 1;
    }
    headings
}

/// What a page shows of a skill.
#[derive(Debug, Clone, PartialEq, Eq)]
pub struct SkillDetail {
    /// The place of the version that is shown.
    pub place: usize,
    pub is_current: bool,
    pub badge: String,
    pub versions: Vec<VersionLink>,
    pub script_count: String,
    pub shim: &'static str,
    pub scripts: Vec<ScriptHeading>,
}

/// Whether a page shows a skill: the version that was asked for, or the current one, if there is
/// that version.
pub open spec fn shows_detail(
    detail: Option<SkillDetail>,
    role: SessionRole,
    skill: SkillRecord,
    requested_version: Option<u64>,
) -> bool {
    let shown = skill.shown_version(requested_version);
    match detail {
        None => !skill.has_version(shown),
        Some(detail) => {
            let version = skill.versions@[detail.place as int];
            &&& skill.version_at(shown, detail.place as int)
            &&& detail.is_current == (shown == skill.current_version)
            &&& detail.badge@ == badge_text(shown, detail.is_current)
            &&& detail.versions@.len() == skill.versions@.len()
            &&& forall|i: int|
                #![trigger detail.versions@[i]]
                0 <= i < detail.versions@.len() ==> links_version(
                    detail.versions@[i],
                    role,
                    skill,
                    skill.versions@[detail.versions@.len() - 1 - i].version,
                    shown,
                )
            &&& detail.script_count@ == decimal_text(version.scripts@.len())
            &&& detail.shim@ == (if version.enable_coco_shim {
                "Enabled"@
            } else {
                "Disabled"@
            })
            &&& detail.scripts@.len() == version.scripts@.len()
            &&& forall|i: int|
                #![trigger detail.scripts@[i]]
                0 <= i < detail.scripts@.len() ==> heads_script(
                    detail.scripts@[i],
                    version.scripts@[i],
                    i,
                )
        },
    }
}

/// Decides what a page shows of a skill. Nothing is shown where its current version is missing
/// and no other was asked for.
pub fn skill_detail(role: SessionRole, skill: &SkillRecord, requested_version: Option<u64>) -> (detail:
    Option<SkillDetail>)
    requires
        skill.wf(),
    ensures
        shows_detail(detail, role, *skill, requested_version),
{
    match skill.select_version(requested_version) {
        None => None,
        Some(place) => {
            let version = &skill.versions[place];
            let is_current = version.version == skill.current_version;
            assert(skill.version_at(skill.shown_version(requested_version), place as int));
            Some(
                SkillDetail {
                    place,
                    is_current,
                    badge: version_badge(version.version, is_current),
                    versions: version_switch(role, skill, version.version),
                    script_count: decimal(version.scripts.len() as u64),
                    shim: if version.enable_coco_shim {
                        "Enabled"
                    } else {
                        "Disabled"
                    },
                    scripts: script_headings(&version.scripts),
                },
            )
        },
    }
}

/// The skills of all roles, by name.
#[derive(Debug, Clone, PartialEq, Eq)]
pub struct SkillGroups {
    pub orchestrator: TextMap<SkillRecord>,
    pub runner: TextMap<SkillRecord>,
}

/// Whether every skill of a role is well formed.
pub open spec fn skills_wf(skills: TextMap<SkillRecord>) -> bool {
    &&& skills.wf()
    &&& forall|name: Seq<char>| #[trigger] skills@.contains_key(name) ==> skills@[name].wf()
}

impl SkillGroups {
    /// Whether every skill is well formed.
    pub open spec fn wf(&self) -> bool {
        skills_wf(self.orchestrator) && skills_wf(self.runner)
    }

    /// The skills of a role.
    pub open spec fn of_role(&self, role: SessionRole) -> TextMap<SkillRecord> {
        match role {
            SessionRole::Orchestrator => self.orchestrator,
            SessionRole::Runner => self.runner,
        }
    }

    /// The skills of a role.
    pub fn for_role(&self, role: SessionRole) -> (skills: &TextMap<SkillRecord>)
        ensures
            *skills == self.of_role(role),
    {
        match role {
            SessionRole::Orchestrator => &self.orchestrator,
            SessionRole::Runner => &self.runner,
        }
    }
}

/// What the page of the skills shows.
#[derive(Debug, Clone, PartialEq, Eq)]
pub struct SkillsPage {
    pub stats: String,
    pub orchestrator_link: RoleLink,
    pub runner_link: RoleLink,
    pub catalog: Vec<CatalogEntry>,
    pub selected_name: Option<String>,
    pub detail: Option<SkillDetail>,
}

/// The skill whose name was selected.
pub open spec fn selected_skill(groups: SkillGroups, role: SessionRole, requested: Option<Seq<char>>) -> Option<
    SkillRecord,
> {
    match shown_skill(groups.of_role(role), requested) {
        Some(name) => Some(groups.of_role(role)@[name]),
        None => None,
    }
}

/// Decides what the page of the skills shows.
pub fn skills_page(
    groups: &SkillGroups,
    role: SessionRole,
    requested_name: Option<&str>,
    requested_version: Option<u64>,
) -> (page: SkillsPage)
    requires
        groups.wf(),
        groups.orchestrator.keys().len() + groups.runner.keys().len() <= usize::MAX,
    ensures
        ({
            let skills = groups.of_role(role);
            let name = shown_skill(skills, optional_str(requested_name));
            &&& page.stats@ == decimal_text(
                (groups.orchestrator.keys().len() + groups.runner.keys().len()) as nat,
            ) + " skills"@
            &&& page.orchestrator_link.label@ == "Orchestrator"@
            &&& page.orchestrator_link.href@ == role_link(SessionRole::Orchestrator)
            &&& page.orchestrator_link.class@ == item_class(
                "skill-role-item"@,
                role == SessionRole::Orchestrator,
            )
            &&& page.orchestrator_link.count == groups.orchestrator.keys().len()
            &&& page.runner_link.label@ == "Runner"@
            &&& page.runner_link.href@ == role_link(SessionRole::Runner)
            &&& page.runner_link.class@ == item_class(
                "skill-role-item"@,
                role == SessionRole::Runner,
            )
            &&& page.runner_link.count == groups.runner.keys().len()
            &&& match page.selected_name {
                Some(text) => name == Some(text@),
                None => name is None,
            }
            &&& page.catalog@.len() == skills.keys().len()
            &&& forall|i: int|
                #![trigger page.catalog@[i]]
                0 <= i < page.catalog@.len() ==> shows_skill(
                    page.catalog@[i]@,
                    role,
                    skills@[skills.keys()[i]],
                    name,
                )
            &&& match selected_skill(*groups, role, optional_str(requested_name)) {
                None => page.detail is None,
                Some(skill) => shows_detail(page.detail, role, skill, requested_version),
            }
        }),
{
    let skills = groups.for_role(role);
    let selected_name = select_skill(skills, requested_name);
    let orchestrator_count: usize = groups.orchestrator.len();
    let runner_count: usize = groups.runner.len();
    proof {
        lemma_some_skill_is_shown(*skills, optional_str(requested_name));
    }
    let detail = match &selected_name {
        Some(name) => match skills.get(name.as_str()) {
            Some(skill) => skill_detail(role, skill, requested_version),
            None => None,
        },
        None => None,
    };
    let selected: Option<&str> = match &selected_name {
        Some(name) => Some(name.as_str()),
        None => None,
    };
    let catalog = skill_catalog(role, skills, selected);
    SkillsPage {
        stats: skill_stats(orchestrator_count, runner_count),
        orchestrator_link: skill_role_link(SessionRole::Orchestrator, role, orchestrator_count),
        runner_link: skill_role_link(SessionRole::Runner, role, runner_count),
        catalog,
        selected_name,
        detail,
    }
}

} // verus!
