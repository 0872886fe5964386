//! Naming of speakers from what they say.
use vstd::prelude::*;
use vstd::string::*;

use crate::env;
use crate::env::EnvVars;
use crate::json;
use crate::protocol::{BrainIdentityRequest, BrainIdentityResponse};
use crate::string_map;
use crate::string_map::StringMap;
use crate::text;

verus! {

/// A name that speakers may be given, with the words by which it is recognised.
#[derive(Debug, Clone, PartialEq, Eq)]
pub struct KnownName {
    canonical: String,
    aliases: Vec<String>,
}

/// The contents of a known name.
#[verifier::ext_equal]
pub struct KnownNameView {
    pub canonical: Seq<char>,
    pub aliases: Seq<Seq<char>>,
}

impl View for KnownName {
    type V = KnownNameView;

    closed spec fn view(&self) -> KnownNameView {
        KnownNameView {
            canonical: self.canonical@,
            aliases: string_map::strings(self.aliases@),
        }
    }
}

/// The names that speakers may be given, in the order in which they are tried.
#[derive(Debug, Clone, PartialEq, Eq)]
pub struct KnownNames {
    entries: Vec<KnownName>,
}

/// The contents of a list of known names.
pub open spec fn known_views(entries: Seq<KnownName>) -> Seq<KnownNameView> {
    entries.map_values(|k: KnownName| k@)
}

impl View for KnownNames {
    type V = Seq<KnownNameView>;

    closed spec fn view(&self) -> Seq<KnownNameView> {
        known_views(self.entries@)
    }
}

/// Why known names could not be read.
#[derive(Debug)]
pub enum KnownNamesError {
    /// The text is no JSON object that maps names to lists of aliases.
    InvalidJson(serde_json::Error),
    /// A name is blank.
    EmptyCanonical,
}

impl KnownNamesError {
    /// The message in words.
    pub open spec fn words(self) -> Seq<char> {
        match self {
            KnownNamesError::InvalidJson(_) =>
                "expected JSON object mapping canonical names to aliases"@,
            KnownNamesError::EmptyCanonical => "known name canonical value cannot be empty"@,
        }
    }

    /// The message in words.
    pub fn message(&self) -> (r: String)
        ensures
            r@ == self.words(),
    {
        match self {
            KnownNamesError::InvalidJson(_) =>
                "expected JSON object mapping canonical names to aliases".to_owned(),
            KnownNamesError::EmptyCanonical =>
                "known name canonical value cannot be empty".to_owned(),
        }
    }
}

/// Aliases trimmed and put in lower case, without those that are blank.
pub open spec fn clean_aliases(aliases: Seq<Seq<char>>) -> Seq<Seq<char>>
    decreases aliases.len(),
{
    if aliases.len() == 0 {
        seq![]
    } else {
        let rest = clean_aliases(aliases.drop_last());
        let alias = text::lowercase(text::trimmed(aliases.last()));
        if alias.len() == 0 {
            rest
        } else {
            rest.push(alias)
        }
    }
}

/// The known names that a map from names to aliases declares, unless a name is blank.
pub open spec fn declared_names(pairs: Seq<(Seq<char>, Seq<Seq<char>>)>) -> Option<
    Seq<KnownNameView>,
> {
    if exists|i: int| 0 <= i < pairs.len() && text::trimmed((#[trigger] pairs[i]).0).len() == 0 {
        None
    } else {
        Some(
            pairs.map_values(
                |p: (Seq<char>, Seq<Seq<char>>)|
                    KnownNameView {
                        canonical: text::trimmed(p.0),
                        aliases: clean_aliases(p.1),
                    },
            ),
        )
    }
}

/// The known names that a text declares: none where it is blank, and otherwise those of the JSON
/// object that it spells, unless it spells none or a name is blank.
pub open spec fn known_from(raw: Seq<char>) -> Option<Seq<KnownNameView>> {
    if text::trimmed(raw).len() == 0 {
        Some(seq![])
    } else {
        match json::alias_map(raw) {
            Some(pairs) => declared_names(pairs),
            None => None,
        }
    }
}

fn read_aliases(aliases: &Vec<String>) -> (r: Vec<String>)
    ensures
        string_map::strings(r@) == clean_aliases(string_map::strings(aliases@)),
{
    let ghost all = string_map::strings(aliases@);
    let n: usize = aliases.len();
    let mut out: Vec<String> = Vec::new();
    let mut i: usize = 0;
    assert(all.take(0) == Seq::<Seq<char>>::empty());
    assert(string_map::strings(out@) == clean_aliases(all.take(0)));
    while i < n
        invariant
            n == aliases.len(),
            i <= n,
            all == string_map::strings(aliases@),
            string_map::strings(out@) == clean_aliases(all.take(i as int)),
        decreases n - i,
    {
        let alias = text::trim(aliases[i].as_str()).to_lowercase();
        let ghost before = string_map::strings(out@);
        assert(all.take(i + 1).drop_last() == all.take(i as int));
        assert(all.take(i + 1).last() == aliases@[i as int]@);
        if !alias.as_str().is_empty() {
            out.push(alias);
            assert(string_map::strings(out@) == before.push(alias@));
        }
        i = i + 1;
    }
    assert(all.take(n as int) == all);
    out
}

impl Default for KnownNames {
    fn default() -> (r: Self)
        ensures
            r@ == Seq::<KnownNameView>::empty(),
    {
        let r = KnownNames { entries: Vec::new() };
        assert(r@ == Seq::<KnownNameView>::empty());
        r
    }
}

impl KnownNames {
    /// The known names that a map from names to aliases declares.
    pub fn from_alias_map(pairs: &Vec<(String, Vec<String>)>) -> (r: Result<Self, KnownNamesError>)
        ensures
            match r {
                Ok(names) => declared_names(json::alias_views(pairs@)) == Some(names@),
                Err(e) => e is EmptyCanonical && declared_names(json::alias_views(pairs@)) is None,
            },
    {
        let ghost all = json::alias_views(pairs@);
        let n: usize = pairs.len();
        let mut entries: Vec<KnownName> = Vec::new();
        let mut i: usize = 0;
        while i < n
            invariant
                n == pairs.len(),
                i <= n,
                all == json::alias_views(pairs@),
                entries.len() == i,
                forall|k: int| 0 <= k < i ==> text::trimmed((#[trigger] all[k]).0).len() > 0,
                forall|k: int|
                    0 <= k < i ==> (#[trigger] entries@[k])@ == (KnownNameView {
                        canonical: text::trimmed(all[k].0),
                        aliases: clean_aliases(all[k].1),
                    }),
            decreases n - i,
        {
            let pair = &pairs[i];
            let canonical = text::trim(pair.0.as_str());
            assert(all[i as int] == (pair.0@, string_map::strings(pair.1@)));
            if canonical.is_empty() {
                return Err(KnownNamesError::EmptyCanonical);
            }
            let aliases = read_aliases(&pair.1);
            entries.push(KnownName { canonical: canonical.to_owned(), aliases });
            i = i + 1;
        }
        let names = KnownNames { entries };
        assert(names@ == declared_names(all)->0);
        Ok(names)
    }

    /// Reads known names from a JSON object that maps names to lists of aliases; a blank text
    /// declares none.
    pub fn from_json(raw: &str) -> (r: Result<Self, KnownNamesError>)
        ensures
            match r {
                Ok(names) => known_from(raw@) == Some(names@),
                Err(KnownNamesError::InvalidJson(_)) => known_from(raw@) is None && json::alias_map(
                    raw@,
                ) is None,
                Err(KnownNamesError::EmptyCanonical) => known_from(raw@) is None
                    && json::alias_map(raw@) is Some,
            },
    {
        if text::trim(raw).is_empty() {
            return Ok(KnownNames::default());
        }
        match json::read_alias_map(raw) {
            Ok(pairs) => KnownNames::from_alias_map(&pairs),
            Err(e) => Err(KnownNamesError::InvalidJson(e)),
        }
    }

    /// The known names in their order.
    pub fn iter(&self) -> (r: &[KnownName])
        ensures
            known_views(r@) == self@,
    {
        self.entries.as_slice()
    }

    /// The names alone, in their order.
    pub fn canonical_names(&self) -> (r: Vec<&str>)
        ensures
            text::texts(r@) == canonicals(self@),
    {
        let n: usize = self.entries.len();
        let mut out: Vec<&str> = Vec::new();
        let mut i: usize = 0;
        while i < n
            invariant
                n == self.entries.len(),
                i <= n,
                out.len() == i,
                forall|k: int| 0 <= k < i ==> (#[trigger] out@[k])@ == self@[k].canonical,
            decreases n - i,
        {
            out.push(self.entries[i].canonical.as_str());
            i = i + 1;
        }
        assert(text::texts(out@) == canonicals(self@));
        out
    }
}

/// The names alone, in their order.
pub open spec fn canonicals(known: Seq<KnownNameView>) -> Seq<Seq<char>> {
    known.map_values(|k: KnownNameView| k.canonical)
}

/// The speaker and the words of one line: what stands before and after its first colon. A
/// line without a colon is by an unknown speaker.
pub open spec fn speaker_line(line: Seq<char>) -> (Seq<char>, Seq<char>) {
    match text::cut(line, ':') {
        Some((tag, words)) => (text::trimmed(tag), text::trimmed(words)),
        None => ("unknown"@, line),
    }
}

/// The speakers and the words of those lines that are not blank.
pub open spec fn spoken_lines(lines: Seq<Seq<char>>) -> Seq<(Seq<char>, Seq<char>)>
    decreases lines.len(),
{
    if lines.len() == 0 {
        seq![]
    } else {
        let rest = spoken_lines(lines.drop_last());
        let line = text::trimmed(lines.last());
        if line.len() == 0 {
            rest
        } else {
            rest.push(speaker_line(line))
        }
    }
}

/// The speakers and the words of a transcript, line by line.
pub open spec fn transcript_lines(transcript: Seq<char>) -> Seq<(Seq<char>, Seq<char>)> {
    spoken_lines(text::pieces(transcript, '\n'))
}

/// The views of pairs of texts.
pub open spec fn text_pairs(pairs: Seq<(String, String)>) -> Seq<(Seq<char>, Seq<char>)> {
    pairs.map_values(|p: (String, String)| (p.0@, p.1@))
}

/// Splits a transcript into the speakers and the words of its lines.
pub fn parse_speaker_lines(transcript: &str) -> (r: Vec<(String, String)>)
    ensures
        text_pairs(r@) == transcript_lines(transcript@),
{
    let lines = text::split(transcript, '\n');
    let ghost all = text::texts(lines@);
    let n: usize = lines.len();
    let mut out: Vec<(String, String)> = Vec::new();
    let mut i: usize = 0;
    assert(all.take(0) == Seq::<Seq<char>>::empty());
    assert(text_pairs(out@) == spoken_lines(all.take(0)));
    while i < n
        invariant
            n == lines.len(),
            i <= n,
            all == text::texts(lines@),
            text_pairs(out@) == spoken_lines(all.take(i as int)),
        decreases n - i,
    {
        let line = text::trim(lines[i]);
        let ghost before = text_pairs(out@);
        assert(all.take(i + 1).drop_last() == all.take(i as int));
        assert(all.take(i + 1).last() == lines@[i as int]@);
        if !line.is_empty() {
            let pair: (String, String) = match text::split_once(line, ':') {
                Some((tag, words)) => (text::trim(tag).to_owned(), text::trim(words).to_owned()),
                None => ("unknown".to_owned(), line.to_owned()),
            };
            assert((pair.0@, pair.1@) == speaker_line(line@));
            out.push(pair);
            assert(text_pairs(out@) == before.push(speaker_line(line@)));
        }
        i = i + 1;
    }
    assert(all.take(n as int) == all);
    out
}

/// Tells whether lower-case words introduce their speaker by the given name.
pub open spec fn introduces(lowered: Seq<char>, name: Seq<char>) -> bool {
    ||| text::has_substring(lowered, "i am "@ + name)
    ||| text::has_substring(lowered, "i'm "@ + name)
    ||| text::has_substring(lowered, "я "@ + name)
    ||| text::has_substring(lowered, "это "@ + name)
}

/// Tells whether lower-case words introduce their speaker by the name or an alias.
pub open spec fn is_self_mention(
    lowered: Seq<char>,
    canonical: Seq<char>,
    aliases: Seq<Seq<char>>,
) -> bool {
    ||| introduces(lowered, canonical)
    ||| text::has_substring(lowered, "this is "@ + canonical)
    ||| exists|i: int|
        0 <= i < aliases.len() && introduces(lowered, text::lowercase(#[trigger] aliases[i]))
}

/// Tells whether lower-case words hold an alias.
pub open spec fn is_mention(lowered: Seq<char>, aliases: Seq<Seq<char>>) -> bool {
    exists|i: int|
        0 <= i < aliases.len() && text::has_substring(
            lowered,
            text::lowercase(#[trigger] aliases[i]),
        )
}

fn contains_phrase(lowered: &str, opening: &str, name: &str) -> (r: bool)
    ensures
        r == text::has_substring(lowered@, opening@ + name@),
{
    let phrase = opening.to_owned().concat(name);
    text::contains(lowered, phrase.as_str())
}

fn introduces_as(lowered: &str, name: &str) -> (r: bool)
    ensures
        r == introduces(lowered@, name@),
{
    contains_phrase(lowered, "i am ", name) || contains_phrase(lowered, "i'm ", name)
        || contains_phrase(lowered, "я ", name) || contains_phrase(lowered, "это ", name)
}

/// Tells whether lower-case words introduce their speaker by the name or an alias.
pub fn mentions_self_as(lowered_text: &str, canonical_name: &str, aliases: &[String]) -> (r: bool)
    ensures
        r == is_self_mention(lowered_text@, canonical_name@, string_map::strings(aliases@)),
{
    if introduces_as(lowered_text, canonical_name) || contains_phrase(
        lowered_text,
        "this is ",
        canonical_name,
    ) {
        return true;
    }
    let ghost all = string_map::strings(aliases@);
    let n: usize = aliases.len();
    let mut i: usize = 0;
    while i < n
        invariant
            n == aliases.len(),
            i <= n,
            all == string_map::strings(aliases@),
            forall|k: int|
                0 <= k < i ==> !introduces(lowered_text@, text::lowercase(#[trigger] all[k])),
        decreases n - i,
    {
        let alias = aliases[i].as_str().to_lowercase();
        assert(all[i as int] == aliases@[i as int]@);
        if introduces_as(lowered_text, alias.as_str()) {
            return true;
        }
        i = i + 1;
    }
    false
}

/// Tells whether lower-case words hold an alias.
pub fn mentions_name(lowered_text: &str, aliases: &[String]) -> (r: bool)
    ensures
        r == is_mention(lowered_text@, string_map::strings(aliases@)),
        forall|i: int, a: Seq<char>, b: Seq<char>|
            0 <= i < aliases@.len() && lowered_text@ == #[trigger] (a + text::lowercase(
                aliases@[i]@,
            ) + b) ==> r,
        r ==> exists|i: int, a: Seq<char>, b: Seq<char>|
            0 <= i < aliases@.len() && lowered_text@ == #[trigger] (a + text::lowercase(
                aliases@[i]@,
            ) + b),
{
    let ghost all = string_map::strings(aliases@);
    let n: usize = aliases.len();
    let mut i: usize = 0;
    while i < n
        invariant
            n == aliases.len(),
            i <= n,
            all == string_map::strings(aliases@),
            forall|k: int|
                0 <= k < i ==> !text::has_substring(
                    lowered_text@,
                    text::lowercase(#[trigger] all[k]),
                ),
        decreases n - i,
    {
        let alias = aliases[i].as_str().to_lowercase();
        assert(all[i as int] == aliases@[i as int]@);
        if text::contains(lowered_text, alias.as_str()) {
            proof {
                let (a, b) = text::found_substring_is_there(lowered_text@, alias@);
                assert(lowered_text@ == a + text::lowercase(aliases@[i as int]@) + b);
            }
            return true;
        }
        i = i + 1;
    }
    assert forall|i: int, a: Seq<char>, b: Seq<char>| 0 <= i < aliases@.len() implies lowered_text@
        != #[trigger] (a + text::lowercase(aliases@[i]@) + b) by {
        assert(all[i] == aliases@[i]@);
        text::substring_is_found(a, text::lowercase(all[i]), b);
    }
    false
}

/// Tells whether lower-case words name the given known name.
pub open spec fn is_named(lowered: Seq<char>, known: KnownNameView) -> bool {
    is_self_mention(lowered, known.canonical, known.aliases) || is_mention(lowered, known.aliases)
}

/// The assignments after one line: its speaker gets each name that the words hold, so that
/// the last one stays.
pub open spec fn named_by_line(
    assigned: Map<Seq<char>, Seq<char>>,
    tag: Seq<char>,
    lowered: Seq<char>,
    known: Seq<KnownNameView>,
) -> Map<Seq<char>, Seq<char>>
    decreases known.len(),
{
    if known.len() == 0 {
        assigned
    } else {
        let before = named_by_line(assigned, tag, lowered, known.drop_last());
        if is_named(lowered, known.last()) {
            before.insert(tag, known.last().canonical)
        } else {
            before
        }
    }
}

/// The assignments that the words of the lines make, a later line prevailing.
pub open spec fn named_by_lines(
    lines: Seq<(Seq<char>, Seq<char>)>,
    known: Seq<KnownNameView>,
) -> Map<Seq<char>, Seq<char>>
    decreases lines.len(),
{
    if lines.len() == 0 {
        Map::empty()
    } else {
        named_by_line(
            named_by_lines(lines.drop_last(), known),
            lines.last().0,
            text::lowercase(lines.last().1),
            known,
        )
    }
}

/// Tells whether a name has been assigned to anyone.
pub open spec fn is_taken(assigned: Map<Seq<char>, Seq<char>>, name: Seq<char>) -> bool {
    exists|tag: Seq<char>| #[trigger] assigned.contains_key(tag) && assigned[tag] == name
}

/// The names that have been assigned to nobody, in their order.
pub open spec fn remaining_names(
    names: Seq<Seq<char>>,
    assigned: Map<Seq<char>, Seq<char>>,
) -> Seq<Seq<char>>
    decreases names.len(),
{
    if names.len() == 0 {
        seq![]
    } else {
        let rest = remaining_names(names.drop_last(), assigned);
        if is_taken(assigned, names.last()) {
            rest
        } else {
            rest.push(names.last())
        }
    }
}

/// The speakers that have no name, in their order.
pub open spec fn unassigned(
    tags: Seq<Seq<char>>,
    assigned: Map<Seq<char>, Seq<char>>,
) -> Seq<Seq<char>>
    decreases tags.len(),
{
    if tags.len() == 0 {
        seq![]
    } else {
        let rest = unassigned(tags.drop_last(), assigned);
        if assigned.contains_key(tags.last()) {
            rest
        } else {
            rest.push(tags.last())
        }
    }
}

/// The tags that stand before the first `tag`.
pub open spec fn tags_before(tags: Seq<Seq<char>>, tag: Seq<char>) -> Seq<Seq<char>>
    decreases tags.len(),
{
    if tags.len() == 0 || tags.first() == tag {
        seq![]
    } else {
        seq![tags.first()] + tags_before(tags.drop_first(), tag)
    }
}

/// The name left for a speaker: where as many names as speakers are left, the one at the
/// place that the speaker has among those left.
pub open spec fn fallback_name(
    tag: Seq<char>,
    assigned: Map<Seq<char>, Seq<char>>,
    tags: Seq<Seq<char>>,
    names: Seq<Seq<char>>,
) -> Option<Seq<char>> {
    let left = remaining_names(names, assigned);
    let place = unassigned(tags_before(tags, tag), assigned).len() as int;
    if left.len() == unassigned(tags, assigned).len() && place < left.len() {
        Some(left[place])
    } else {
        None
    }
}

/// The assignments after the first `n` speakers were given the names left for them.
pub open spec fn with_fallback(
    assigned: Map<Seq<char>, Seq<char>>,
    tags: Seq<Seq<char>>,
    names: Seq<Seq<char>>,
    n: nat,
) -> Map<Seq<char>, Seq<char>>
    decreases n,
{
    if n == 0 {
        assigned
    } else {
        let before = with_fallback(assigned, tags, names, (n - 1) as nat);
        let tag = tags[n - 1];
        if before.contains_key(tag) {
            before
        } else {
            match fallback_name(tag, before, tags, names) {
                Some(name) => before.insert(tag, name),
                None => before,
            }
        }
    }
}

/// The names that are inferred for the speakers of a transcript.
pub open spec fn inferred(
    transcript: Seq<char>,
    tags: Seq<Seq<char>>,
    known: Seq<KnownNameView>,
) -> Map<Seq<char>, Seq<char>> {
    with_fallback(
        named_by_lines(transcript_lines(transcript), known),
        tags,
        canonicals(known),
        tags.len(),
    )
}

fn name_is_taken(assignments: &StringMap<String>, name: &str) -> (r: bool)
    ensures
        r == is_taken(assignments@, name@),
{
    let n: usize = assignments.len();
    let ghost all = assignments.in_order();
    proof {
        string_map::lemma_map_of(all);
    }
    let mut i: usize = 0;
    while i < n
        invariant
            n == all.len(),
            i <= n,
            all == assignments.in_order(),
            assignments@ == string_map::map_of(all),
            string_map::ascending(string_map::entry_keys(all)),
            forall|k: int| 0 <= k < i ==> (#[trigger] all[k]).1 != name@,
        decreases n - i,
    {
        let (tag, given) = assignments.entry(i);
        if text::same_text(given.as_str(), name) {
            proof {
                string_map::lemma_map_of(all);
                assert(assignments@.contains_key(all[i as int].0));
            }
            return true;
        }
        i = i + 1;
    }
    proof {
        if is_taken(assignments@, name@) {
            let tag = choose|tag: Seq<char>| #[trigger]
                assignments@.contains_key(tag) && assignments@[tag] == name@;
            let k = choose|k: int| 0 <= k < all.len() && (#[trigger] all[k]).0 == tag;
            assert(all[k].1 == name@);
        }
    }
    false
}

fn names_left<'a>(names: &Vec<&'a str>, assignments: &StringMap<String>) -> (r: Vec<&'a str>)
    ensures
        text::texts(r@) == remaining_names(text::texts(names@), assignments@),
{
    let ghost all = text::texts(names@);
    let n: usize = names.len();
    let mut out: Vec<&'a str> = Vec::new();
    let mut i: usize = 0;
    assert(all.take(0) == Seq::<Seq<char>>::empty());
    assert(text::texts(out@) == remaining_names(all.take(0), assignments@));
    while i < n
        invariant
            n == names.len(),
            i <= n,
            all == text::texts(names@),
            text::texts(out@) == remaining_names(all.take(i as int), assignments@),
        decreases n - i,
    {
        let ghost before = text::texts(out@);
        assert(all.take(i + 1).drop_last() == all.take(i as int));
        assert(all.take(i + 1).last() == names@[i as int]@);
        if !name_is_taken(assignments, names[i]) {
            out.push(names[i]);
            assert(text::texts(out@) == before.push(names@[i as int]@));
        }
        i = i + 1;
    }
    assert(all.take(n as int) == all);
    out
}

/// Counts the unnamed speakers among the first `n`.
fn count_unassigned(tags: &[String], n: usize, assignments: &StringMap<String>) -> (r: usize)
    requires
        n <= tags@.len(),
    ensures
        r == unassigned(string_map::strings(tags@).take(n as int), assignments@).len(),
{
    let ghost all = string_map::strings(tags@);
    let mut count: usize = 0;
    let mut i: usize = 0;
    assert(all.take(0) == Seq::<Seq<char>>::empty());
    while i < n
        invariant
            n <= tags.len(),
            i <= n,
            count <= i,
            all == string_map::strings(tags@),
            count == unassigned(all.take(i as int), assignments@).len(),
        decreases n - i,
    {
        assert(all.take(i + 1).drop_last() == all.take(i as int));
        assert(all.take(i + 1).last() == tags@[i as int]@);
        if !assignments.contains_key(tags[i].as_str()) {
            count = count + 1;
        }
        i = i + 1;
    }
    count
}

proof fn lemma_tags_before(tags: Seq<Seq<char>>, tag: Seq<char>, at: int)
    requires
        0 <= at <= tags.len(),
        forall|k: int| 0 <= k < at ==> tags[k] != tag,
        at < tags.len() ==> tags[at] == tag,
    ensures
        tags_before(tags, tag) == tags.take(at),
    decreases tags.len(),
{
    if at > 0 {
        assert forall|k: int| 0 <= k < at - 1 implies tags.drop_first()[k] != tag by {
            assert(tags[k + 1] != tag);
        }
        lemma_tags_before(tags.drop_first(), tag, at - 1);
        assert(seq![tags.first()] + tags.drop_first().take(at - 1) == tags.take(at));
    } else {
        assert(tags.take(at) == Seq::<Seq<char>>::empty());
    }
}

/// The name left for a speaker: where as many names as speakers are left, the one at the
/// place that the speaker has among those left.
pub fn fallback_name_for_remaining_speaker(
    speaker_tag: &str,
    assignments: &StringMap<String>,
    speaker_tags: &[String],
    known_names: &KnownNames,
) -> (r: Option<String>)
    ensures
        match r {
            Some(name) => fallback_name(
                speaker_tag@,
                assignments@,
                string_map::strings(speaker_tags@),
                canonicals(known_names@),
            ) == Some(name@),
            None => fallback_name(
                speaker_tag@,
                assignments@,
                string_map::strings(speaker_tags@),
                canonicals(known_names@),
            ) is None,
        },
{
    let ghost tags = string_map::strings(speaker_tags@);
    let left = names_left(&known_names.canonical_names(), assignments);
    let n: usize = speaker_tags.len();
    let open: usize = count_unassigned(speaker_tags, n, assignments);
    assert(tags.take(n as int) == tags);
    let mut at: usize = 0;
    while at < n && !text::same_text(speaker_tags[at].as_str(), speaker_tag)
        invariant
            n == speaker_tags.len(),
            at <= n,
            tags == string_map::strings(speaker_tags@),
            forall|k: int| 0 <= k < at ==> tags[k] != speaker_tag@,
        ensures
            at <= n,
            at < n ==> tags[at as int] == speaker_tag@,
            forall|k: int| 0 <= k < at ==> tags[k] != speaker_tag@,
        decreases n - at,
    {
        at = at + 1;
    }
    let place: usize = count_unassigned(speaker_tags, at, assignments);
    proof {
        lemma_tags_before(tags, speaker_tag@, at as int);
    }
    assert(text::texts(left@).len() == left@.len());
    if left.len() == open && place < left.len() {
        let name = left[place];
        assert(text::texts(left@)[place as int] == name@);
        Some(name.to_owned())
    } else {
        None
    }
}

/// Why the brain could not answer.
#[derive(Debug, Clone, PartialEq, Eq)]
pub enum BrainError {
    /// The command to be run names no program.
    EmptyCommand,
    /// The command reported failure.
    CommandFailed { status: String, stderr: String },
}

impl BrainError {
    /// The message in words.
    pub open spec fn words(self) -> Seq<char> {
        match self {
            BrainError::EmptyCommand =>
                "TETO_BRAIN_COMMAND must contain at least one executable"@,
            BrainError::CommandFailed { status, stderr } => "brain command exited with status "@
                + status@ + ": "@ + stderr@,
        }
    }

    /// The message in words.
    pub fn message(&self) -> (r: String)
        ensures
            r@ == self.words(),
    {
        match self {
            BrainError::EmptyCommand =>
                "TETO_BRAIN_COMMAND must contain at least one executable".to_owned(),
            BrainError::CommandFailed { status, stderr } => {
                let mut out = "brain command exited with status ".to_owned();
                out.append(status.as_str());
                out.append(": ");
                out.append(stderr.as_str());
                out
            },
        }
    }
}

/// Why there is no engine for the names that the environment declares.
#[derive(Debug)]
pub enum EngineError {
    /// The known names could not be read.
    KnownNames(KnownNamesError),
}

impl EngineError {
    /// The message in words, followed by its cause.
    pub open spec fn words(self) -> Seq<char> {
        match self {
            EngineError::KnownNames(e) => "failed to parse TETO_KNOWN_NAMES_JSON: "@ + e.words(),
        }
    }

    /// The message in words, followed by its cause.
    pub fn message(&self) -> (r: String)
        ensures
            r@ == self.words(),
    {
        match self {
            EngineError::KnownNames(e) => {
                let mut out = "failed to parse TETO_KNOWN_NAMES_JSON: ".to_owned();
                out.append(e.message().as_str());
                out
            },
        }
    }
}

/// Names speakers by the words that they use.
#[derive(Debug, Clone)]
pub struct RegexIdentityEngine {
    known_names: KnownNames,
}

impl View for RegexIdentityEngine {
    type V = Seq<KnownNameView>;

    closed spec fn view(&self) -> Seq<KnownNameView> {
        self.known_names@
    }
}

impl RegexIdentityEngine {
    /// The engine for the names that the environment declares.
    pub fn from_env(env: &EnvVars) -> (r: Result<Self, EngineError>)
        ensures
            ({
                let raw = env::text_setting(env@, "TETO_KNOWN_NAMES_JSON"@, ""@);
                match r {
                    Ok(engine) => known_from(raw) == Some(engine@),
                    Err(EngineError::KnownNames(e)) => known_from(raw) is None && (e is InvalidJson
                        <==> json::alias_map(raw) is None),
                }
            }),
    {
        let raw = env::env_or_default(env, "TETO_KNOWN_NAMES_JSON", "");
        match KnownNames::from_json(raw.as_str()) {
            Ok(known_names) => Ok(RegexIdentityEngine { known_names }),
            Err(e) => Err(EngineError::KnownNames(e)),
        }
    }

    /// The engine for the given names.
    pub fn new(known_names: KnownNames) -> (r: Self)
        ensures
            r@ == known_names@,
    {
        RegexIdentityEngine { known_names }
    }

    fn assign_by_line(&self, assignments: &mut StringMap<String>, tag: &str, words: &str)
        ensures
            final(assignments)@ == named_by_line(
                old(assignments)@,
                tag@,
                text::lowercase(words@),
                self@,
            ),
    {
        let ghost start = assignments@;
        let ghost all = self@;
        let lowered = words.to_lowercase();
        let entries = &self.known_names.entries;
        let n: usize = entries.len();
        let mut i: usize = 0;
        while i < n
            invariant
                n == entries.len(),
                i <= n,
                all == known_views(entries@),
                lowered@ == text::lowercase(words@),
                assignments@ == named_by_line(start, tag@, lowered@, all.take(i as int)),
            decreases n - i,
        {
            let known = &entries[i];
            assert(all.take(i + 1).drop_last() == all.take(i as int));
            assert(all.take(i + 1).last() == known@);
            if mentions_self_as(
                lowered.as_str(),
                known.canonical.as_str(),
                known.aliases.as_slice(),
            ) || mentions_name(lowered.as_str(), known.aliases.as_slice()) {
                assignments.insert(tag.to_owned(), known.canonical.clone());
            }
            i = i + 1;
        }
        assert(all.take(n as int) == all);
    }

    /// Names the speakers of a transcript.
    pub fn infer(&self, request: &BrainIdentityRequest) -> (r: Result<
        BrainIdentityResponse,
        BrainError,
    >)
        ensures
            r matches Ok(response) && response.session_id@ == request.session_id@
                && response.identities@ == inferred(
                request.transcript@,
                string_map::strings(request.speaker_tags@),
                self@,
            ),
            forall|line: int, name: int, alias: int, a: Seq<char>, b: Seq<char>|
                #![trigger transcript_lines(request.transcript@)[line], a + text::lowercase(
                    self@[name].aliases[alias],
                ) + b]
                {
                    &&& 0 <= line < transcript_lines(request.transcript@).len()
                    &&& 0 <= name < self@.len()
                    &&& 0 <= alias < self@[name].aliases.len()
                    &&& text::lowercase(transcript_lines(request.transcript@)[line].1) == a
                        + text::lowercase(self@[name].aliases[alias]) + b
                } ==> r->Ok_0.identities@.contains_key(
                    transcript_lines(request.transcript@)[line].0,
                ),
    {
        let mut assignments: StringMap<String> = StringMap::new();
        let lines = parse_speaker_lines(request.transcript.as_str());
        let ghost all = text_pairs(lines@);
        let n: usize = lines.len();
        let mut i: usize = 0;
        assert(all.take(0) == Seq::<(Seq<char>, Seq<char>)>::empty());
        while i < n
            invariant
                n == lines.len(),
                i <= n,
                all == text_pairs(lines@),
                assignments@ == named_by_lines(all.take(i as int), self@),
            decreases n - i,
        {
            let line = &lines[i];
            assert(all.take(i + 1).drop_last() == all.take(i as int));
            assert(all.take(i + 1).last() == (line.0@, line.1@));
            self.assign_by_line(&mut assignments, line.0.as_str(), line.1.as_str());
            i = i + 1;
        }
        assert(all.take(n as int) == all);
        let ghost named = assignments@;
        let ghost tags = string_map::strings(request.speaker_tags@);
        let count: usize = request.speaker_tags.len();
        let mut j: usize = 0;
        while j < count
            invariant
                count == request.speaker_tags.len(),
                j <= count,
                tags == string_map::strings(request.speaker_tags@),
                assignments@ == with_fallback(named, tags, canonicals(self@), j as nat),
            decreases count - j,
        {
            let tag = &request.speaker_tags[j];
            assert(tags[j as int] == tag@);
            if !assignments.contains_key(tag.as_str()) {
                let name = fallback_name_for_remaining_speaker(
                    tag.as_str(),
                    &assignments,
                    request.speaker_tags.as_slice(),
                    &self.known_names,
                );
                if let Some(name) = name {
                    assignments.insert(tag.clone(), name);
                }
            }
            j = j + 1;
        }
        proof {
            let spoken = transcript_lines(request.transcript@);
            assert forall|line: int, name: int, alias: int, a: Seq<char>, b: Seq<char>|
                #![trigger spoken[line], a + text::lowercase(self@[name].aliases[alias]) + b]
                {
                    &&& 0 <= line < spoken.len()
                    &&& 0 <= name < self@.len()
                    &&& 0 <= alias < self@[name].aliases.len()
                    &&& text::lowercase(spoken[line].1) == a + text::lowercase(
                        self@[name].aliases[alias],
                    ) + b
                } implies assignments@.contains_key(spoken[line].0) by {
                alias_in_a_line_names_its_speaker(
                    request.transcript@,
                    tags,
                    self@,
                    line,
                    name,
                    alias,
                    a,
                    b,
                );
            }
        }
        Ok(BrainIdentityResponse::new(request.session_id.as_str(), assignments))
    }
}

/// The settings of the brain.
#[derive(Debug, Clone, PartialEq, Eq)]
pub struct BrainConfig {
    pub redis_url: String,
    pub brain_queue: String,
    pub brain_resolutions_queue: String,
    pub reconnect_delay_secs: u64,
}

impl BrainConfig {
    /// The settings that the environment gives.
    pub fn from_env(env: &EnvVars) -> (r: Self)
        ensures
            r.redis_url@ == env::text_setting(env@, "REDIS_URL"@, "redis://127.0.0.1/"@),
            r.brain_queue@ == env::text_setting(env@, "TETO_BRAIN_QUEUE"@, "teto_brain_queue"@),
            r.brain_resolutions_queue@ == env::text_setting(
                env@,
                "TETO_BRAIN_RESOLUTIONS_QUEUE"@,
                "brain_resolutions"@,
            ),
            r.reconnect_delay_secs == env::number_setting(
                env@,
                "TETO_BRAIN_RECONNECT_DELAY_SECS"@,
                2,
                u64::MAX as nat,
            ),
    {
        BrainConfig {
            redis_url: env::env_or_default(env, "REDIS_URL", "redis://127.0.0.1/"),
            brain_queue: env::env_or_default(env, "TETO_BRAIN_QUEUE", "teto_brain_queue"),
            brain_resolutions_queue: env::env_or_default(
                env,
                "TETO_BRAIN_RESOLUTIONS_QUEUE",
                "brain_resolutions",
            ),
            reconnect_delay_secs: env::env_u64(env, "TETO_BRAIN_RECONNECT_DELAY_SECS", 2),
        }
    }
}

/// What names the speakers.
#[derive(Debug, Clone)]
pub enum BrainBackend {
    /// The words of the transcript.
    Regex(RegexIdentityEngine),
    /// A program, followed by its arguments.
    Command(Vec<String>),
}

/// Why there is nothing to name the speakers with.
#[derive(Debug)]
pub enum BackendError {
    /// There is no engine for the known names.
    Engine(EngineError),
    /// A command is asked for, but none is given.
    MissingCommand,
    /// The kind asked for does not exist.
    Unsupported(String),
}

impl BackendError {
    /// The message in words, followed by its cause where it has one.
    pub open spec fn words(self) -> Seq<char> {
        match self {
            BackendError::Engine(e) => "failed to initialize regex identity engine: "@ + e.words(),
            BackendError::MissingCommand =>
                "TETO_BRAIN_COMMAND is required when TETO_BRAIN_BACKEND=command"@,
            BackendError::Unsupported(kind) => "unsupported TETO_BRAIN_BACKEND '"@ + kind@
                + "'; expected 'regex' or 'command'"@,
        }
    }

    /// The message in words, followed by its cause where it has one.
    pub fn message(&self) -> (r: String)
        ensures
            r@ == self.words(),
    {
        match self {
            BackendError::Engine(e) => {
                let mut out = "failed to initialize regex identity engine: ".to_owned();
                out.append(e.message().as_str());
                out
            },
            BackendError::MissingCommand =>
                "TETO_BRAIN_COMMAND is required when TETO_BRAIN_BACKEND=command".to_owned(),
            BackendError::Unsupported(kind) => {
                let mut out = "unsupported TETO_BRAIN_BACKEND '".to_owned();
                out.append(kind.as_str());
                out.append("'; expected 'regex' or 'command'");
                out
            },
        }
    }
}

/// The kind of backend that the environment asks for, in lower case.
pub open spec fn backend_kind(env: Map<Seq<char>, Seq<char>>) -> Seq<char> {
    env::text_setting(env, "TETO_BRAIN_BACKEND"@, "regex"@).map_values(
        |c: char| text::ascii_lower(c),
    )
}

/// The command line that the environment gives; blank where it gives none.
pub open spec fn backend_command(env: Map<Seq<char>, Seq<char>>) -> Seq<char> {
    env::text_setting(env, "TETO_BRAIN_COMMAND"@, ""@)
}

/// The words of a text, each in a place of its own.
fn owned_words(line: &str) -> (r: Vec<String>)
    ensures
        string_map::strings(r@) == text::words(line@),
{
    let words = text::split_whitespace(line);
    let n: usize = words.len();
    let mut out: Vec<String> = Vec::new();
    let mut i: usize = 0;
    while i < n
        invariant
            n == words.len(),
            i <= n,
            out.len() == i,
            forall|k: int| 0 <= k < i ==> (#[trigger] out@[k])@ == words@[k]@,
        decreases n - i,
    {
        out.push(words[i].to_owned());
        i = i + 1;
    }
    assert(string_map::strings(out@) == text::texts(words@));
    out
}

/// The backend that the environment asks for.
pub fn brain_backend_from_env(env: &EnvVars) -> (r: Result<BrainBackend, BackendError>)
    ensures
        ({
            let kind = backend_kind(env@);
            let raw = env::text_setting(env@, "TETO_KNOWN_NAMES_JSON"@, ""@);
            match r {
                Ok(BrainBackend::Regex(engine)) => kind == "regex"@ && known_from(raw) == Some(
                    engine@,
                ),
                Ok(BrainBackend::Command(words)) => kind == "command"@ && backend_command(
                    env@,
                ).len() > 0 && string_map::strings(words@) == text::words(backend_command(env@)),
                Err(BackendError::Engine(EngineError::KnownNames(e))) => kind == "regex"@
                    && known_from(raw) is None && (e is InvalidJson <==> json::alias_map(
                    raw,
                ) is None),
                Err(BackendError::MissingCommand) => kind == "command"@ && backend_command(
                    env@,
                ).len() == 0,
                Err(BackendError::Unsupported(other)) => other@ == kind && kind != "regex"@ && kind
                    != "command"@,
            }
        }),
{
    let kind = env::env_or_default(env, "TETO_BRAIN_BACKEND", "regex");
    let kind = kind.as_str().to_ascii_lowercase();
    proof {
        reveal_strlit("regex");
        reveal_strlit("command");
        reveal_strlit("");
    }
    if text::same_text(kind.as_str(), "regex") {
        match RegexIdentityEngine::from_env(env) {
            Ok(engine) => Ok(BrainBackend::Regex(engine)),
            Err(e) => Err(BackendError::Engine(e)),
        }
    } else if text::same_text(kind.as_str(), "command") {
        let command = env::env_or_default(env, "TETO_BRAIN_COMMAND", "");
        if command.as_str().is_empty() {
            return Err(BackendError::MissingCommand);
        }
        Ok(BrainBackend::Command(owned_words(command.as_str())))
    } else {
        Err(BackendError::Unsupported(kind))
    }
}

/// What is to be done about a request.
#[derive(Debug)]
pub enum BrainStep {
    /// The speakers are named.
    Answer(BrainIdentityResponse),
    /// A program is to be run on the request.
    Run { program: String, args: Vec<String> },
}

impl BrainBackend {
    /// Names the speakers of a request, or tells which program is to name them.
    pub fn infer(&self, request: &BrainIdentityRequest) -> (r: Result<BrainStep, BrainError>)
        ensures
            match (*self, r) {
                (BrainBackend::Regex(engine), Ok(BrainStep::Answer(response))) => {
                    &&& response.session_id@ == request.session_id@
                    &&& response.identities@ == inferred(
                        request.transcript@,
                        string_map::strings(request.speaker_tags@),
                        engine@,
                    )
                },
                (BrainBackend::Command(words), Ok(BrainStep::Run { program, args })) => {
                    &&& words@.len() > 0
                    &&& seq![program@] + string_map::strings(args@) == string_map::strings(words@)
                },
                (BrainBackend::Command(words), Err(e)) => words@.len() == 0 && e is EmptyCommand,
                _ => false,
            },
    {
        match self {
            BrainBackend::Regex(engine) => match engine.infer(request) {
                Ok(response) => Ok(BrainStep::Answer(response)),
                Err(e) => Err(e),
            },
            BrainBackend::Command(words) => {
                let n: usize = words.len();
                if n == 0 {
                    return Err(BrainError::EmptyCommand);
                }
                let program = words[0].clone();
                let mut args: Vec<String> = Vec::new();
                let mut i: usize = 1;
                while i < n
                    invariant
                        n == words.len(),
                        1 <= i <= n,
                        args.len() == i - 1,
                        forall|k: int|
                            0 <= k < i - 1 ==> (#[trigger] args@[k])@ == words@[k + 1]@,
                    decreases n - i,
                {
                    args.push(words[i].clone());
                    i = i + 1;
                }
                assert(seq![program@] + string_map::strings(args@) == string_map::strings(words@));
                Ok(BrainStep::Run { program, args })
            },
        }
    }
}

/// What a program that was run on a request has to say: its output where it succeeded.
pub fn command_output(
    success: bool,
    status: String,
    stdout: Vec<u8>,
    stderr: &[u8],
) -> (r: Result<Vec<u8>, BrainError>)
    ensures
        match r {
            Ok(output) => success && output == stdout,
            Err(BrainError::CommandFailed { status: s, stderr: e }) => !success && s == status
                && e@ == text::lossy_text(stderr@),
            Err(BrainError::EmptyCommand) => false,
        },
{
    if success {
        Ok(stdout)
    } else {
        Err(BrainError::CommandFailed { status, stderr: text::decode_lossy(stderr) })
    }
}

/// The brain: its settings and what it names speakers with.
#[derive(Debug, Clone)]
pub struct TetoBrain {
    config: BrainConfig,
    backend: BrainBackend,
}

impl TetoBrain {
    /// The settings.
    pub closed spec fn settings(self) -> BrainConfig {
        self.config
    }

    /// What names the speakers.
    pub closed spec fn naming(self) -> BrainBackend {
        self.backend
    }

    /// A brain with the given settings.
    pub fn new(config: BrainConfig, backend: BrainBackend) -> (r: Self)
        ensures
            r.settings() == config,
            r.naming() == backend,
    {
        TetoBrain { config, backend }
    }

    /// The settings.
    pub fn config(&self) -> (r: &BrainConfig)
        ensures
            *r == self.settings(),
    {
        &self.config
    }

    /// What names the speakers.
    pub fn backend(&self) -> (r: &BrainBackend)
        ensures
            *r == self.naming(),
    {
        &self.backend
    }
}

proof fn lemma_unassigned_prefix(
    tags: Seq<Seq<char>>,
    assigned: Map<Seq<char>, Seq<char>>,
    n: int,
)
    requires
        0 <= n <= tags.len(),
    ensures
        unassigned(tags.take(n), assigned).len() <= unassigned(tags, assigned).len(),
        unassigned(tags.take(n), assigned) == unassigned(tags, assigned).take(
            unassigned(tags.take(n), assigned).len() as int,
        ),
    decreases tags.len(),
{
    let full = unassigned(tags, assigned);
    if n == tags.len() {
        assert(tags.take(n) == tags);
        assert(full == full.take(full.len() as int));
    } else {
        lemma_unassigned_prefix(tags.drop_last(), assigned, n);
        assert(tags.drop_last().take(n) == tags.take(n));
        let shorter = unassigned(tags.drop_last(), assigned);
        let k = unassigned(tags.take(n), assigned).len() as int;
        assert(shorter.take(k) == full.take(k));
    }
}

proof fn lemma_all_assigned(tags: Seq<Seq<char>>, assigned: Map<Seq<char>, Seq<char>>)
    requires
        forall|i: int| 0 <= i < tags.len() ==> assigned.contains_key(#[trigger] tags[i]),
    ensures
        unassigned(tags, assigned).len() == 0,
    decreases tags.len(),
{
    if tags.len() > 0 {
        assert(assigned.contains_key(tags[tags.len() - 1]));
        assert forall|i: int| 0 <= i < tags.drop_last().len() implies assigned.contains_key(
            #[trigger] tags.drop_last()[i],
        ) by {
            assert(assigned.contains_key(tags[i]));
        }
        lemma_all_assigned(tags.drop_last(), assigned);
    }
}

proof fn lemma_unassigned_members(tags: Seq<Seq<char>>, assigned: Map<Seq<char>, Seq<char>>)
    ensures
        forall|i: int|
            0 <= i < unassigned(tags, assigned).len() ==> tags.contains(
                #[trigger] unassigned(tags, assigned)[i],
            ) && !assigned.contains_key(unassigned(tags, assigned)[i]),
        forall|t: Seq<char>|
            tags.contains(t) && !assigned.contains_key(t) ==> #[trigger] unassigned(
                tags,
                assigned,
            ).contains(t),
    decreases tags.len(),
{
    if tags.len() > 0 {
        let shorter = tags.drop_last();
        let rest = unassigned(shorter, assigned);
        let full = unassigned(tags, assigned);
        lemma_unassigned_members(shorter, assigned);
        assert forall|i: int| 0 <= i < full.len() implies tags.contains(#[trigger] full[i])
            && !assigned.contains_key(full[i]) by {
            if i < rest.len() {
                assert(full[i] == rest[i]);
                let k = choose|k: int| 0 <= k < shorter.len() && shorter[k] == rest[i];
                assert(tags[k] == rest[i]);
            } else {
                assert(tags[tags.len() - 1] == full[i]);
            }
        }
        assert forall|t: Seq<char>|
            tags.contains(t) && !assigned.contains_key(t) implies #[trigger] full.contains(t) by {
            let k = choose|k: int| 0 <= k < tags.len() && tags[k] == t;
            if k < tags.len() - 1 {
                assert(shorter[k] == t);
                assert(rest.contains(t));
                let j = choose|j: int| 0 <= j < rest.len() && rest[j] == t;
                assert(full[j] == t);
            } else {
                assert(full[full.len() - 1] == t);
            }
        }
    }
}

proof fn lemma_remaining_members(names: Seq<Seq<char>>, assigned: Map<Seq<char>, Seq<char>>)
    ensures
        forall|i: int|
            0 <= i < remaining_names(names, assigned).len() ==> names.contains(
                #[trigger] remaining_names(names, assigned)[i],
            ) && !is_taken(assigned, remaining_names(names, assigned)[i]),
    decreases names.len(),
{
    if names.len() > 0 {
        let shorter = names.drop_last();
        let rest = remaining_names(shorter, assigned);
        let full = remaining_names(names, assigned);
        lemma_remaining_members(shorter, assigned);
        assert forall|i: int| 0 <= i < full.len() implies names.contains(#[trigger] full[i])
            && !is_taken(assigned, full[i]) by {
            if i < rest.len() {
                assert(full[i] == rest[i]);
                let k = choose|k: int| 0 <= k < shorter.len() && shorter[k] == rest[i];
                assert(names[k] == rest[i]);
            } else {
                assert(names[names.len() - 1] == full[i]);
            }
        }
    }
}

proof fn lemma_taken_after(
    assigned: Map<Seq<char>, Seq<char>>,
    tag: Seq<char>,
    name: Seq<char>,
    other: Seq<char>,
)
    requires
        !assigned.contains_key(tag),
    ensures
        is_taken(assigned.insert(tag, name), other) == (is_taken(assigned, other) || other == name),
{
    let after = assigned.insert(tag, name);
    if is_taken(assigned, other) {
        let t = choose|t: Seq<char>| #[trigger] assigned.contains_key(t) && assigned[t] == other;
        assert(after.contains_key(t) && after[t] == other);
    }
    if other == name {
        assert(after.contains_key(tag) && after[tag] == other);
    }
    if is_taken(after, other) {
        let t = choose|t: Seq<char>| #[trigger] after.contains_key(t) && after[t] == other;
        if t != tag {
            assert(assigned.contains_key(t) && assigned[t] == other);
        }
    }
}

proof fn lemma_remaining_after(
    names: Seq<Seq<char>>,
    assigned: Map<Seq<char>, Seq<char>>,
    tag: Seq<char>,
    name: Seq<char>,
)
    requires
        names.no_duplicates(),
        !assigned.contains_key(tag),
        remaining_names(names, assigned).len() > 0 ==> !remaining_names(
            names,
            assigned,
        ).drop_first().contains(name),
    ensures
        ({
            let before = remaining_names(names, assigned);
            let after = remaining_names(names, assigned.insert(tag, name));
            if before.len() > 0 && before[0] == name {
                after == before.drop_first()
            } else {
                after == before
            }
        }),
    decreases names.len(),
{
    if names.len() > 0 {
        let shorter = names.drop_last();
        let x = names.last();
        let rest = remaining_names(shorter, assigned);
        let before = remaining_names(names, assigned);
        let after_map = assigned.insert(tag, name);
        lemma_taken_after(assigned, tag, name, x);
        if rest.len() > 0 {
            assert forall|i: int| 0 <= i < rest.drop_first().len() implies rest.drop_first()[i]
                != name by {
                assert(before.drop_first()[i] == rest.drop_first()[i]);
                assert(before.drop_first().contains(rest.drop_first()[i]));
            }
        }
        lemma_remaining_after(shorter, assigned, tag, name);
        lemma_remaining_members(shorter, assigned);
        if !is_taken(assigned, x) {
            if x == name {
                if rest.len() > 0 {
                    assert(before.drop_first().last() == name);
                    assert(before.drop_first().contains(name));
                }
                assert(rest.len() == 0);
                assert(before.drop_first() == Seq::<Seq<char>>::empty());
            } else if rest.len() > 0 && rest[0] == name {
                assert(before.drop_first() == rest.drop_first().push(x));
            }
        }
    }
}

proof fn lemma_unassigned_after(
    tags: Seq<Seq<char>>,
    assigned: Map<Seq<char>, Seq<char>>,
    tag: Seq<char>,
    name: Seq<char>,
)
    requires
        unassigned(tags, assigned).len() > 0 ==> !unassigned(
            tags,
            assigned,
        ).drop_first().contains(tag),
    ensures
        ({
            let before = unassigned(tags, assigned);
            let after = unassigned(tags, assigned.insert(tag, name));
            if before.len() > 0 && before[0] == tag {
                after == before.drop_first()
            } else {
                after == before
            }
        }),
    decreases tags.len(),
{
    if tags.len() > 0 {
        let shorter = tags.drop_last();
        let x = tags.last();
        let rest = unassigned(shorter, assigned);
        let before = unassigned(tags, assigned);
        if rest.len() > 0 {
            assert forall|i: int| 0 <= i < rest.drop_first().len() implies rest.drop_first()[i]
                != tag by {
                assert(before.drop_first()[i] == rest.drop_first()[i]);
                assert(before.drop_first().contains(rest.drop_first()[i]));
            }
        }
        lemma_unassigned_after(shorter, assigned, tag, name);
        if !assigned.contains_key(x) {
            if x == tag {
                if rest.len() > 0 {
                    assert(before.drop_first().last() == tag);
                    assert(before.drop_first().contains(tag));
                }
                assert(rest.len() == 0);
                assert(before.drop_first() == Seq::<Seq<char>>::empty());
            } else if rest.len() > 0 && rest[0] == tag {
                assert(before.drop_first() == rest.drop_first().push(x));
            }
        }
    }
}

proof fn lemma_unassigned_distinct(tags: Seq<Seq<char>>, assigned: Map<Seq<char>, Seq<char>>)
    requires
        tags.no_duplicates(),
    ensures
        unassigned(tags, assigned).no_duplicates(),
    decreases tags.len(),
{
    if tags.len() > 0 {
        lemma_unassigned_distinct(tags.drop_last(), assigned);
        lemma_unassigned_members(tags.drop_last(), assigned);
    }
}

proof fn lemma_remaining_distinct(names: Seq<Seq<char>>, assigned: Map<Seq<char>, Seq<char>>)
    requires
        names.no_duplicates(),
    ensures
        remaining_names(names, assigned).no_duplicates(),
    decreases names.len(),
{
    if names.len() > 0 {
        lemma_remaining_distinct(names.drop_last(), assigned);
        lemma_remaining_members(names.drop_last(), assigned);
    }
}

/// Tells how far the fallback has come: of the `left` names and the `open` speakers the
/// first `m` have been paired, and nothing else has changed.
spec fn paired(
    start: Map<Seq<char>, Seq<char>>,
    now: Map<Seq<char>, Seq<char>>,
    open: Seq<Seq<char>>,
    left: Seq<Seq<char>>,
    m: int,
) -> bool {
    &&& forall|t: Seq<char>| #[trigger] start.contains_key(t) ==> now.contains_key(t) && now[t]
        == start[t]
    &&& forall|i: int| 0 <= i < m ==> now.contains_key(#[trigger] open[i]) && now[open[i]] == left[i]
    &&& forall|t: Seq<char>| #[trigger]
        now.contains_key(t) ==> start.contains_key(t) || open.take(m).contains(t)
}

proof fn lemma_pairing_step(
    start: Map<Seq<char>, Seq<char>>,
    tags: Seq<Seq<char>>,
    names: Seq<Seq<char>>,
    n: nat,
)
    requires
        n <= tags.len(),
        tags.no_duplicates(),
        names.no_duplicates(),
        remaining_names(names, start).len() == unassigned(tags, start).len(),
    ensures
        ({
            let now = with_fallback(start, tags, names, n);
            let open = unassigned(tags, start);
            let left = remaining_names(names, start);
            let m = unassigned(tags.take(n as int), start).len() as int;
            &&& m <= open.len()
            &&& paired(start, now, open, left, m)
            &&& remaining_names(names, now) == left.skip(m)
            &&& unassigned(tags, now) == open.skip(m)
            &&& forall|i: int| 0 <= i < n ==> now.contains_key(#[trigger] tags[i])
        }),
    decreases n,
{
    let open = unassigned(tags, start);
    let left = remaining_names(names, start);
    if n == 0 {
        assert(tags.take(0) == Seq::<Seq<char>>::empty());
        assert(left.skip(0) == left);
        assert(open.skip(0) == open);
    } else {
        let k = (n - 1) as nat;
        lemma_pairing_step(start, tags, names, k);
        lemma_unassigned_distinct(tags, start);
        lemma_remaining_distinct(names, start);
        lemma_unassigned_members(tags, start);
        lemma_unassigned_prefix(tags, start, k as int);
        lemma_unassigned_prefix(tags, start, n as int);
        let before = with_fallback(start, tags, names, k);
        let m = unassigned(tags.take(k as int), start).len() as int;
        let tag = tags[k as int];
        assert(tags.take(n as int).drop_last() == tags.take(k as int));
        assert(tags.take(n as int).last() == tag);
        if start.contains_key(tag) {
            assert(before.contains_key(tag));
        } else {
            // The speaker is the next open one.
            assert(unassigned(tags.take(n as int), start) == unassigned(
                tags.take(k as int),
                start,
            ).push(tag));
            assert(open.take(m + 1)[m] == tag);
            assert(open[m] == tag);
            if before.contains_key(tag) {
                let j = choose|j: int| 0 <= j < m && open.take(m)[j] == tag;
                assert(open[j] == tag);
            }
            assert(!before.contains_key(tag));
            lemma_tags_before(tags, tag, k as int);
            assert forall|i: int| 0 <= i < tags.take(k as int).len() implies before.contains_key(
                #[trigger] tags.take(k as int)[i],
            ) by {
                assert(before.contains_key(tags[i]));
            }
            lemma_all_assigned(tags.take(k as int), before);
            let name = left[m];
            assert(left.skip(m)[0] == name);
            assert(open.skip(m)[0] == tag);
            assert(fallback_name(tag, before, tags, names) == Some(name));
            let now = before.insert(tag, name);
            assert(!left.skip(m).drop_first().contains(name)) by {
                if left.skip(m).drop_first().contains(name) {
                    let j = choose|j: int|
                        0 <= j < left.skip(m).drop_first().len() && left.skip(m).drop_first()[j]
                            == name;
                    assert(left[m + 1 + j] == name);
                }
            }
            assert(!open.skip(m).drop_first().contains(tag)) by {
                if open.skip(m).drop_first().contains(tag) {
                    let j = choose|j: int|
                        0 <= j < open.skip(m).drop_first().len() && open.skip(m).drop_first()[j]
                            == tag;
                    assert(open[m + 1 + j] == tag);
                }
            }
            lemma_remaining_after(names, before, tag, name);
            lemma_unassigned_after(tags, before, tag, name);
            assert(left.skip(m).drop_first() == left.skip(m + 1));
            assert(open.skip(m).drop_first() == open.skip(m + 1));
            assert forall|i: int| 0 <= i < m + 1 implies now.contains_key(#[trigger] open[i])
                && now[open[i]] == left[i] by {
                if i < m {
                    assert(open[i] != open[m]);
                }
            }
            assert forall|t: Seq<char>| #[trigger] now.contains_key(t) implies start.contains_key(t)
                || open.take(m + 1).contains(t) by {
                if t == tag {
                    assert(open.take(m + 1)[m] == t);
                } else if !start.contains_key(t) {
                    let j = choose|j: int| 0 <= j < m && open.take(m)[j] == t;
                    assert(open.take(m + 1)[j] == t);
                }
            }
        }
    }
}

/// Where as many known names as speakers are left after the words have been looked at, the
/// speakers left get the names left, in order, and nothing else changes: every speaker asked
/// for is named, and no name is given twice.
pub proof fn left_speakers_get_left_names(
    start: Map<Seq<char>, Seq<char>>,
    tags: Seq<Seq<char>>,
    names: Seq<Seq<char>>,
)
    requires
        tags.no_duplicates(),
        names.no_duplicates(),
        remaining_names(names, start).len() == unassigned(tags, start).len(),
    ensures
        ({
            let end = with_fallback(start, tags, names, tags.len());
            let open = unassigned(tags, start);
            let left = remaining_names(names, start);
            &&& forall|i: int| 0 <= i < tags.len() ==> end.contains_key(#[trigger] tags[i])
            &&& forall|i: int|
                0 <= i < open.len() ==> end.contains_key(#[trigger] open[i]) && end[open[i]]
                    == left[i]
            &&& forall|t: Seq<char>| #[trigger]
                end.contains_key(t) ==> start.contains_key(t) && end[t] == start[t]
                    || open.contains(t)
            &&& open.no_duplicates()
            &&& left.no_duplicates()
            &&& forall|i: int| 0 <= i < left.len() ==> !is_taken(start, #[trigger] left[i])
        }),
{
    lemma_pairing_step(start, tags, names, tags.len());
    lemma_unassigned_distinct(tags, start);
    lemma_remaining_distinct(names, start);
    lemma_remaining_members(names, start);
    assert(tags.take(tags.len() as int) == tags);
    let open = unassigned(tags, start);
    assert(open.take(open.len() as int) == open);
}

/// Where the numbers of names and speakers left differ, nobody is named without a mention.
pub proof fn uneven_rest_names_nobody(
    start: Map<Seq<char>, Seq<char>>,
    tags: Seq<Seq<char>>,
    names: Seq<Seq<char>>,
    n: nat,
)
    requires
        n <= tags.len(),
        remaining_names(names, start).len() != unassigned(tags, start).len(),
    ensures
        with_fallback(start, tags, names, n) == start,
    decreases n,
{
    if n > 0 {
        uneven_rest_names_nobody(start, tags, names, (n - 1) as nat);
    }
}

/// A name that the words of the transcript gave a speaker is never replaced by a fallback.
pub proof fn mentions_prevail(
    start: Map<Seq<char>, Seq<char>>,
    tags: Seq<Seq<char>>,
    names: Seq<Seq<char>>,
    n: nat,
    tag: Seq<char>,
)
    requires
        start.contains_key(tag),
    ensures
        with_fallback(start, tags, names, n).contains_key(tag),
        with_fallback(start, tags, names, n)[tag] == start[tag],
    decreases n,
{
    if n > 0 {
        mentions_prevail(start, tags, names, (n - 1) as nat, tag);
    }
}

/// Tells whether a line of a speaker mentions a known name.
pub open spec fn line_mentions(
    lines: Seq<(Seq<char>, Seq<char>)>,
    known: Seq<KnownNameView>,
    tag: Seq<char>,
    line: int,
    name: int,
) -> bool {
    &&& 0 <= line < lines.len()
    &&& 0 <= name < known.len()
    &&& lines[line].0 == tag
    &&& is_named(text::lowercase(lines[line].1), known[name])
}

proof fn lemma_line_names_by_last_mention(
    assigned: Map<Seq<char>, Seq<char>>,
    by: Seq<char>,
    lowered: Seq<char>,
    known: Seq<KnownNameView>,
    tag: Seq<char>,
)
    ensures
        ({
            let named = named_by_line(assigned, by, lowered, known);
            ||| (by == tag && exists|k: int|
                {
                    &&& 0 <= k < known.len()
                    &&& is_named(lowered, #[trigger] known[k])
                    &&& named.contains_key(tag)
                    &&& named[tag] == known[k].canonical
                    &&& forall|m: int|
                        k < m < known.len() ==> !is_named(lowered, #[trigger] known[m])
                })
            ||| ((by != tag || forall|m: int|
                0 <= m < known.len() ==> !is_named(lowered, #[trigger] known[m]))
                && named.contains_key(tag) == assigned.contains_key(tag) && (assigned.contains_key(
                tag,
            ) ==> named[tag] == assigned[tag]))
        }),
    decreases known.len(),
{
    if known.len() > 0 {
        let shorter = known.drop_last();
        let n = shorter.len() as int;
        lemma_line_names_by_last_mention(assigned, by, lowered, shorter, tag);
        if by == tag {
            if is_named(lowered, known[n]) {
                assert(known[n] == known.last());
            } else {
                assert forall|m: int| 0 <= m < n implies shorter[m] == known[m] by {}
                if exists|k: int|
                    {
                        &&& 0 <= k < shorter.len()
                        &&& is_named(lowered, #[trigger] shorter[k])
                        &&& named_by_line(assigned, by, lowered, shorter).contains_key(tag)
                        &&& named_by_line(assigned, by, lowered, shorter)[tag]
                            == shorter[k].canonical
                        &&& forall|m: int|
                            k < m < shorter.len() ==> !is_named(lowered, #[trigger] shorter[m])
                    } {
                    let k = choose|k: int|
                        {
                            &&& 0 <= k < shorter.len()
                            &&& is_named(lowered, #[trigger] shorter[k])
                            &&& named_by_line(assigned, by, lowered, shorter).contains_key(tag)
                            &&& named_by_line(assigned, by, lowered, shorter)[tag]
                                == shorter[k].canonical
                            &&& forall|m: int|
                                k < m < shorter.len() ==> !is_named(lowered, #[trigger] shorter[m])
                        };
                    assert(is_named(lowered, known[k]));
                    assert forall|m: int| k < m < known.len() implies !is_named(
                        lowered,
                        #[trigger] known[m],
                    ) by {
                        if m < n {
                            assert(!is_named(lowered, shorter[m]));
                        }
                    }
                } else {
                    assert forall|m: int| 0 <= m < known.len() implies !is_named(
                        lowered,
                        #[trigger] known[m],
                    ) by {
                        if m < n {
                            assert(!is_named(lowered, shorter[m]));
                        }
                    }
                }
            }
        }
    }
}

/// A speaker is named by what is said if and only if a line of the speaker mentions a known name;
/// the name is that of the last such line, and of the names that it mentions the last known one.
pub proof fn last_mention_names_the_speaker(
    lines: Seq<(Seq<char>, Seq<char>)>,
    known: Seq<KnownNameView>,
    tag: Seq<char>,
)
    ensures
        named_by_lines(lines, known).contains_key(tag) ==> exists|i: int, k: int|
            {
                &&& #[trigger] line_mentions(lines, known, tag, i, k)
                &&& named_by_lines(lines, known)[tag] == known[k].canonical
                &&& forall|j: int, m: int| #[trigger]
                    line_mentions(lines, known, tag, j, m) ==> j < i || j == i && m <= k
            },
        forall|j: int, m: int| #[trigger]
            line_mentions(lines, known, tag, j, m) ==> named_by_lines(lines, known).contains_key(
                tag,
            ),
    decreases lines.len(),
{
    if lines.len() > 0 {
        let before = lines.drop_last();
        let n = before.len() as int;
        let (by, words) = lines.last();
        let lowered = text::lowercase(words);
        let assigned = named_by_lines(before, known);
        let named = named_by_lines(lines, known);
        last_mention_names_the_speaker(before, known, tag);
        lemma_line_names_by_last_mention(assigned, by, lowered, known, tag);
        assert forall|j: int, m: int| j < n implies #[trigger] line_mentions(
            lines,
            known,
            tag,
            j,
            m,
        ) == line_mentions(before, known, tag, j, m) by {
            if 0 <= j {
                assert(before[j] == lines[j]);
            }
        }
        if by == tag && exists|k: int| 0 <= k < known.len() && is_named(lowered, #[trigger] known[k]) {
            let k = choose|k: int|
                {
                    &&& 0 <= k < known.len()
                    &&& is_named(lowered, #[trigger] known[k])
                    &&& named.contains_key(tag)
                    &&& named[tag] == known[k].canonical
                    &&& forall|m: int|
                        k < m < known.len() ==> !is_named(lowered, #[trigger] known[m])
                };
            assert(line_mentions(lines, known, tag, n, k));
        } else {
            assert forall|j: int, m: int| #[trigger]
                line_mentions(lines, known, tag, j, m) implies j < n && line_mentions(
                before,
                known,
                tag,
                j,
                m,
            ) by {
                if j == n {
                    assert(is_named(lowered, known[m]));
                }
            }
            if named.contains_key(tag) {
                let (i, k) = choose|i: int, k: int|
                    {
                        &&& #[trigger] line_mentions(before, known, tag, i, k)
                        &&& assigned[tag] == known[k].canonical
                        &&& forall|j: int, m: int| #[trigger]
                            line_mentions(before, known, tag, j, m) ==> j < i || j == i && m <= k
                    };
                assert(line_mentions(lines, known, tag, i, k));
            }
        }
    }
}

/// Every name that is inferred is a known name, and every speaker that is named either speaks
/// in the transcript or was asked for.
pub proof fn inferred_names_are_known(
    transcript: Seq<char>,
    tags: Seq<Seq<char>>,
    known: Seq<KnownNameView>,
    tag: Seq<char>,
)
    requires
        inferred(transcript, tags, known).contains_key(tag),
    ensures
        canonicals(known).contains(inferred(transcript, tags, known)[tag]),
        tags.contains(tag) || exists|i: int|
            0 <= i < transcript_lines(transcript).len() && (#[trigger] transcript_lines(
                transcript,
            )[i]).0 == tag,
{
    let lines = transcript_lines(transcript);
    let start = named_by_lines(lines, known);
    lemma_fallback_names_are_known(start, tags, canonicals(known), tags.len(), tag);
    if start.contains_key(tag) {
        lemma_mentioned_names_are_known(lines, known, tag);
        mentions_prevail(start, tags, canonicals(known), tags.len(), tag);
    }
}

proof fn lemma_fallback_names_are_known(
    start: Map<Seq<char>, Seq<char>>,
    tags: Seq<Seq<char>>,
    names: Seq<Seq<char>>,
    n: nat,
    tag: Seq<char>,
)
    requires
        n <= tags.len(),
        with_fallback(start, tags, names, n).contains_key(tag),
    ensures
        start.contains_key(tag) || tags.contains(tag) && names.contains(
            with_fallback(start, tags, names, n)[tag],
        ),
    decreases n,
{
    if n > 0 {
        let before = with_fallback(start, tags, names, (n - 1) as nat);
        if before.contains_key(tag) {
            lemma_fallback_names_are_known(start, tags, names, (n - 1) as nat, tag);
        } else {
            lemma_remaining_members(names, before);
            assert(tags[n - 1] == tag);
        }
    }
}

proof fn lemma_line_names_are_known(
    assigned: Map<Seq<char>, Seq<char>>,
    by: Seq<char>,
    lowered: Seq<char>,
    known: Seq<KnownNameView>,
    tag: Seq<char>,
)
    requires
        named_by_line(assigned, by, lowered, known).contains_key(tag),
    ensures
        ({
            let name = named_by_line(assigned, by, lowered, known)[tag];
            ||| assigned.contains_key(tag) && name == assigned[tag]
            ||| by == tag && canonicals(known).contains(name)
        }),
    decreases known.len(),
{
    if known.len() > 0 {
        let shorter = known.drop_last();
        let before = named_by_line(assigned, by, lowered, shorter);
        let name = named_by_line(assigned, by, lowered, known)[tag];
        if is_named(lowered, known.last()) && by == tag {
            assert(canonicals(known)[known.len() - 1] == name);
        } else {
            lemma_line_names_are_known(assigned, by, lowered, shorter, tag);
            if by == tag && canonicals(shorter).contains(name) {
                let i = choose|i: int|
                    0 <= i < canonicals(shorter).len() && canonicals(shorter)[i] == name;
                assert(canonicals(known)[i] == name);
            }
        }
    }
}

proof fn lemma_mentioned_names_are_known(
    lines: Seq<(Seq<char>, Seq<char>)>,
    known: Seq<KnownNameView>,
    tag: Seq<char>,
)
    requires
        named_by_lines(lines, known).contains_key(tag),
    ensures
        canonicals(known).contains(named_by_lines(lines, known)[tag]),
        exists|i: int| 0 <= i < lines.len() && (#[trigger] lines[i]).0 == tag,
    decreases lines.len(),
{
    if lines.len() > 0 {
        let shorter = lines.drop_last();
        let before = named_by_lines(shorter, known);
        lemma_line_names_are_known(
            before,
            lines.last().0,
            text::lowercase(lines.last().1),
            known,
            tag,
        );
        if before.contains_key(tag) && named_by_lines(lines, known)[tag] == before[tag] {
            lemma_mentioned_names_are_known(shorter, known, tag);
            let i = choose|i: int| 0 <= i < shorter.len() && (#[trigger] shorter[i]).0 == tag;
            assert(lines[i].0 == tag);
        } else {
            assert(lines[lines.len() - 1].0 == tag);
        }
    }
}

/// An alias that stands anywhere in lower-case words is a mention, however much is said before and
/// after it.
pub proof fn alias_anywhere_is_a_mention(
    before: Seq<char>,
    after: Seq<char>,
    aliases: Seq<Seq<char>>,
    i: int,
)
    requires
        0 <= i < aliases.len(),
    ensures
        is_mention(before + text::lowercase(aliases[i]) + after, aliases),
{
    text::substring_is_found(before, text::lowercase(aliases[i]), after);
}

/// Words that mention a name hold one of its aliases: they are something, the alias in lower case,
/// and something.
pub proof fn mention_holds_an_alias(lowered: Seq<char>, aliases: Seq<Seq<char>>) -> (at: (
    int,
    Seq<char>,
    Seq<char>,
))
    requires
        is_mention(lowered, aliases),
    ensures
        0 <= at.0 < aliases.len(),
        lowered == at.1 + text::lowercase(aliases[at.0]) + at.2,
{
    let i = choose|i: int|
        0 <= i < aliases.len() && text::has_substring(
            lowered,
            text::lowercase(#[trigger] aliases[i]),
        );
    let (a, b) = text::found_substring_is_there(lowered, text::lowercase(aliases[i]));
    (i, a, b)
}

/// Tells whether words introduce somebody, a name being due to follow.
pub open spec fn opens_introduction(opening: Seq<char>) -> bool {
    ||| opening == "i am "@
    ||| opening == "i'm "@
    ||| opening == "я "@
    ||| opening == "это "@
}

/// Words that introduce the speaker by the name or an alias count as such wherever they stand.
pub proof fn introduction_anywhere_counts(
    before: Seq<char>,
    opening: Seq<char>,
    after: Seq<char>,
    canonical: Seq<char>,
    aliases: Seq<Seq<char>>,
)
    ensures
        opens_introduction(opening) || opening == "this is "@ ==> is_self_mention(
            before + (opening + canonical) + after,
            canonical,
            aliases,
        ),
        opens_introduction(opening) ==> forall|i: int|
            0 <= i < aliases.len() ==> is_self_mention(
                before + (opening + text::lowercase(#[trigger] aliases[i])) + after,
                canonical,
                aliases,
            ),
{
    text::substring_is_found(before, opening + canonical, after);
    if opens_introduction(opening) {
        assert forall|i: int| 0 <= i < aliases.len() implies is_self_mention(
            before + (opening + text::lowercase(#[trigger] aliases[i])) + after,
            canonical,
            aliases,
        ) by {
            let name = text::lowercase(aliases[i]);
            text::substring_is_found(before, opening + name, after);
            assert(introduces(before + (opening + name) + after, name));
        }
    }
}

proof fn lemma_introduced(lowered: Seq<char>, name: Seq<char>) -> (at: (
    Seq<char>,
    Seq<char>,
    Seq<char>,
))
    requires
        introduces(lowered, name),
    ensures
        opens_introduction(at.1),
        lowered == at.0 + (at.1 + name) + at.2,
{
    let opening = if text::has_substring(lowered, "i am "@ + name) {
        "i am "@
    } else if text::has_substring(lowered, "i'm "@ + name) {
        "i'm "@
    } else if text::has_substring(lowered, "я "@ + name) {
        "я "@
    } else {
        "это "@
    };
    let (a, b) = text::found_substring_is_there(lowered, opening + name);
    (a, opening, b)
}

/// Words that count as introducing the speaker hold such words: something, an opening followed by
/// the name or an alias, and something.
pub proof fn introduction_holds_a_name(
    lowered: Seq<char>,
    canonical: Seq<char>,
    aliases: Seq<Seq<char>>,
) -> (at: (Seq<char>, Seq<char>, Seq<char>, Seq<char>))
    requires
        is_self_mention(lowered, canonical, aliases),
    ensures
        lowered == at.0 + (at.1 + at.2) + at.3,
        at.2 == canonical && (opens_introduction(at.1) || at.1 == "this is "@)
            || opens_introduction(at.1) && exists|i: int|
            0 <= i < aliases.len() && at.2 == text::lowercase(#[trigger] aliases[i]),
{
    if introduces(lowered, canonical) {
        let (a, opening, b) = lemma_introduced(lowered, canonical);
        (a, opening, canonical, b)
    } else if text::has_substring(lowered, "this is "@ + canonical) {
        let (a, b) = text::found_substring_is_there(lowered, "this is "@ + canonical);
        (a, "this is "@, canonical, b)
    } else {
        let i = choose|i: int|
            0 <= i < aliases.len() && introduces(lowered, text::lowercase(#[trigger] aliases[i]));
        let (a, opening, b) = lemma_introduced(lowered, text::lowercase(aliases[i]));
        (a, opening, text::lowercase(aliases[i]), b)
    }
}

/// Whoever says an alias of a known name is named: where the words of a line, in lower case, are
/// something, an alias and something, the line mentions that name and its speaker gets a name.
pub proof fn alias_in_a_line_names_its_speaker(
    transcript: Seq<char>,
    tags: Seq<Seq<char>>,
    known: Seq<KnownNameView>,
    line: int,
    name: int,
    alias: int,
    before: Seq<char>,
    after: Seq<char>,
)
    requires
        0 <= line < transcript_lines(transcript).len(),
        0 <= name < known.len(),
        0 <= alias < known[name].aliases.len(),
        text::lowercase(transcript_lines(transcript)[line].1) == before + text::lowercase(
            known[name].aliases[alias],
        ) + after,
    ensures
        ({
            let lines = transcript_lines(transcript);
            let tag = lines[line].0;
            &&& line_mentions(lines, known, tag, line, name)
            &&& inferred(transcript, tags, known).contains_key(tag)
            &&& canonicals(known).contains(inferred(transcript, tags, known)[tag])
            &&& (forall|j: int, m: int| #[trigger]
                line_mentions(lines, known, tag, j, m) ==> j < line || j == line && m <= name)
                ==> inferred(transcript, tags, known)[tag] == known[name].canonical
        }),
{
    let lines = transcript_lines(transcript);
    let tag = lines[line].0;
    alias_anywhere_is_a_mention(before, after, known[name].aliases, alias);
    assert(line_mentions(lines, known, tag, line, name));
    lemma_mentioned_speaker_is_named(transcript, tags, known, line, name);
}

/// Whoever is introduced by a known name is named: where the words of a line, in lower case, are
/// something, an opening followed by the name itself and something, the line mentions that name and
/// its speaker gets a name.
pub proof fn introduction_in_a_line_names_its_speaker(
    transcript: Seq<char>,
    tags: Seq<Seq<char>>,
    known: Seq<KnownNameView>,
    line: int,
    name: int,
    before: Seq<char>,
    opening: Seq<char>,
    after: Seq<char>,
)
    requires
        0 <= line < transcript_lines(transcript).len(),
        0 <= name < known.len(),
        opens_introduction(opening) || opening == "this is "@,
        text::lowercase(transcript_lines(transcript)[line].1) == before + (opening
            + known[name].canonical) + after,
    ensures
        ({
            let lines = transcript_lines(transcript);
            let tag = lines[line].0;
            &&& line_mentions(lines, known, tag, line, name)
            &&& inferred(transcript, tags, known).contains_key(tag)
            &&& (forall|j: int, m: int| #[trigger]
                line_mentions(lines, known, tag, j, m) ==> j < line || j == line && m <= name)
                ==> inferred(transcript, tags, known)[tag] == known[name].canonical
        }),
{
    introduction_anywhere_counts(
        before,
        opening,
        after,
        known[name].canonical,
        known[name].aliases,
    );
    let lines = transcript_lines(transcript);
    assert(line_mentions(lines, known, lines[line].0, line, name));
    lemma_mentioned_speaker_is_named(transcript, tags, known, line, name);
}

proof fn lemma_mentioned_speaker_is_named(
    transcript: Seq<char>,
    tags: Seq<Seq<char>>,
    known: Seq<KnownNameView>,
    line: int,
    name: int,
)
    requires
        0 <= line < transcript_lines(transcript).len(),
        line_mentions(
            transcript_lines(transcript),
            known,
            transcript_lines(transcript)[line].0,
            line,
            name,
        ),
    ensures
        ({
            let lines = transcript_lines(transcript);
            let tag = lines[line].0;
            &&& inferred(transcript, tags, known).contains_key(tag)
            &&& canonicals(known).contains(inferred(transcript, tags, known)[tag])
            &&& (forall|j: int, m: int| #[trigger]
                line_mentions(lines, known, tag, j, m) ==> j < line || j == line && m <= name)
                ==> inferred(transcript, tags, known)[tag] == known[name].canonical
        }),
{
    let lines = transcript_lines(transcript);
    let tag = lines[line].0;
    let start = named_by_lines(lines, known);
    last_mention_names_the_speaker(lines, known, tag);
    mentions_prevail(start, tags, canonicals(known), tags.len(), tag);
    inferred_names_are_known(transcript, tags, known, tag);
    if forall|j: int, m: int| #[trigger]
        line_mentions(lines, known, tag, j, m) ==> j < line || j == line && m <= name {
        let (i, k) = choose|i: int, k: int|
            {
                &&& #[trigger] line_mentions(lines, known, tag, i, k)
                &&& start[tag] == known[k].canonical
                &&& forall|j: int, m: int| #[trigger]
                    line_mentions(lines, known, tag, j, m) ==> j < i || j == i && m <= k
            };
        assert(i == line && k == name);
    }
}

/// Whoever neither says an alias nor is introduced by a name is named by nothing that is said: a
/// speaker that the words name has a line in which an alias or an introduction stands.
pub proof fn only_spoken_names_count(
    lines: Seq<(Seq<char>, Seq<char>)>,
    known: Seq<KnownNameView>,
    tag: Seq<char>,
) -> (at: (int, int, Seq<char>, Seq<char>, Seq<char>, Seq<char>))
    requires
        named_by_lines(lines, known).contains_key(tag),
    ensures
        0 <= at.0 < lines.len(),
        0 <= at.1 < known.len(),
        lines[at.0].0 == tag,
        named_by_lines(lines, known)[tag] == known[at.1].canonical,
        text::lowercase(lines[at.0].1) == at.2 + (at.3 + at.4) + at.5,
        ({
            let aliases = known[at.1].aliases;
            ||| at.4 == known[at.1].canonical && (opens_introduction(at.3) || at.3 == "this is "@)
            ||| (opens_introduction(at.3) || at.3.len() == 0) && exists|i: int|
                0 <= i < aliases.len() && at.4 == text::lowercase(#[trigger] aliases[i])
        }),
{
    last_mention_names_the_speaker(lines, known, tag);
    let (j, k) = choose|i: int, k: int|
        {
            &&& #[trigger] line_mentions(lines, known, tag, i, k)
            &&& named_by_lines(lines, known)[tag] == known[k].canonical
            &&& forall|j: int, m: int| #[trigger]
                line_mentions(lines, known, tag, j, m) ==> j < i || j == i && m <= k
        };
    let lowered = text::lowercase(lines[j].1);
    if is_self_mention(lowered, known[k].canonical, known[k].aliases) {
        let (a, opening, name, b) = introduction_holds_a_name(
            lowered,
            known[k].canonical,
            known[k].aliases,
        );
        (j, k, a, opening, name, b)
    } else {
        let (i, a, b) = mention_holds_an_alias(lowered, known[k].aliases);
        let name = text::lowercase(known[k].aliases[i]);
        assert(Seq::<char>::empty() + name == name);
        (j, k, a, Seq::<char>::empty(), name, b)
    }
}

/// Lines are read one by one: what is read of two runs of lines is what is read of the first and
/// of the second.
pub proof fn lines_are_read_one_by_one(a: Seq<Seq<char>>, b: Seq<Seq<char>>)
    ensures
        spoken_lines(a + b) == spoken_lines(a) + spoken_lines(b),
    decreases b.len(),
{
    if b.len() == 0 {
        assert(a + b == a);
        assert(spoken_lines(a) + spoken_lines(b) == spoken_lines(a));
    } else {
        assert((a + b).drop_last() == a + b.drop_last());
        assert((a + b).last() == b.last());
        lines_are_read_one_by_one(a, b.drop_last());
        assert(spoken_lines(a + b) == spoken_lines(a) + spoken_lines(b));
    }
}

/// A line that stands in a transcript is read whatever stands in the lines before and after it. Up
/// to its first colon it names the speaker, and behind the colon stand the words, white space at the
/// ends of either not counting.
pub proof fn spoken_line_is_read(
    before: Seq<char>,
    tag: Seq<char>,
    words: Seq<char>,
    after: Seq<char>,
)
    requires
        !tag.contains('\n'),
        !tag.contains(':'),
        !words.contains('\n'),
    ensures
        transcript_lines(before + seq!['\n'] + (tag + seq![':'] + words) + seq!['\n'] + after)
            == transcript_lines(before) + seq![(text::trimmed(tag), text::trimmed(words))]
            + transcript_lines(after),
        transcript_lines(tag + seq![':'] + words) == seq![
            (text::trimmed(tag), text::trimmed(words)),
        ],
{
    let line = tag + seq![':'] + words;
    assert(!line.contains('\n')) by {
        if line.contains('\n') {
            let i = choose|i: int| 0 <= i < line.len() && line[i] == '\n';
            if i < tag.len() {
                assert(tag[i] == '\n');
            } else if i > tag.len() {
                assert(words[i - tag.len() - 1] == '\n');
            }
        }
    }
    lemma_one_line(before, line, after);
    lemma_trimmed_line(tag, words);
}

/// A line without a colon is by an unknown speaker, and a blank line is passed over.
pub proof fn line_without_speaker_is_read(before: Seq<char>, line: Seq<char>, after: Seq<char>)
    requires
        !line.contains('\n'),
        !line.contains(':'),
    ensures
        transcript_lines(before + seq!['\n'] + line + seq!['\n'] + after) == transcript_lines(
            before,
        ) + (if text::all_white(line) {
            Seq::<(Seq<char>, Seq<char>)>::empty()
        } else {
            seq![("unknown"@, text::trimmed(line))]
        }) + transcript_lines(after),
{
    lemma_one_line(before, line, after);
    let t = text::trimmed(line);
    let (a, b) = text::trimming_takes_off_only_white_space(line);
    if text::all_white(line) {
        text::trimming_leaves_the_middle(line, seq![], seq![]);
        assert(line + Seq::<char>::empty() + Seq::<char>::empty() == line);
    } else {
        if t.len() == 0 {
            assert(line == a + b);
            assert(text::all_white(line));
        }
        if t.contains(':') {
            let i = choose|i: int| 0 <= i < t.len() && t[i] == ':';
            assert(line[i + a.len()] == ':');
        }
        text::lemma_no_cut(t, ':');
    }
}

proof fn lemma_one_line(before: Seq<char>, line: Seq<char>, after: Seq<char>)
    requires
        !line.contains('\n'),
    ensures
        transcript_lines(before + seq!['\n'] + line + seq!['\n'] + after) == transcript_lines(
            before,
        ) + (if text::trimmed(line).len() == 0 {
            Seq::<(Seq<char>, Seq<char>)>::empty()
        } else {
            seq![speaker_line(text::trimmed(line))]
        }) + transcript_lines(after),
        transcript_lines(line) == if text::trimmed(line).len() == 0 {
            Seq::<(Seq<char>, Seq<char>)>::empty()
        } else {
            seq![speaker_line(text::trimmed(line))]
        },
{
    let head = before + seq!['\n'] + line;
    text::separator_splits_the_pieces(head, '\n', after);
    text::separator_splits_the_pieces(before, '\n', line);
    text::lemma_pieces_whole(line, '\n');
    let one = seq![line];
    lines_are_read_one_by_one(text::pieces(head, '\n'), text::pieces(after, '\n'));
    lines_are_read_one_by_one(text::pieces(before, '\n'), one);
    assert(one.drop_last() == Seq::<Seq<char>>::empty());
    assert(spoken_lines(one.drop_last()) == Seq::<(Seq<char>, Seq<char>)>::empty());
    assert(spoken_lines(one) == if text::trimmed(line).len() == 0 {
        Seq::<(Seq<char>, Seq<char>)>::empty()
    } else {
        seq![speaker_line(text::trimmed(line))]
    });
}

proof fn lemma_trimmed_line(tag: Seq<char>, words: Seq<char>)
    requires
        !tag.contains(':'),
    ensures
        text::trimmed(tag + seq![':'] + words).len() > 0,
        speaker_line(text::trimmed(tag + seq![':'] + words)) == (
            text::trimmed(tag),
            text::trimmed(words),
        ),
{
    text::lemma_trimmed_cut(tag, ':', words);
}

/// Aliases are cleaned one by one, and each is kept, trimmed and in lower case, unless nothing is
/// left of it.
pub proof fn aliases_are_cleaned_one_by_one(a: Seq<Seq<char>>, alias: Seq<char>, b: Seq<Seq<char>>)
    ensures
        clean_aliases(a + b) == clean_aliases(a) + clean_aliases(b),
        clean_aliases(seq![alias]) == if text::lowercase(text::trimmed(alias)).len() == 0 {
            Seq::<Seq<char>>::empty()
        } else {
            seq![text::lowercase(text::trimmed(alias))]
        },
    decreases b.len(),
{
    let one = seq![alias];
    assert(one.drop_last() == Seq::<Seq<char>>::empty());
    assert(clean_aliases(one.drop_last()) == Seq::<Seq<char>>::empty());
    assert(clean_aliases(one) == if text::lowercase(text::trimmed(alias)).len() == 0 {
        Seq::<Seq<char>>::empty()
    } else {
        seq![text::lowercase(text::trimmed(alias))]
    });
    if b.len() == 0 {
        assert(a + b == a);
        assert(clean_aliases(a) + clean_aliases(b) == clean_aliases(a));
    } else {
        assert((a + b).drop_last() == a + b.drop_last());
        assert((a + b).last() == b.last());
        aliases_are_cleaned_one_by_one(a, alias, b.drop_last());
        assert(clean_aliases(a + b) == clean_aliases(a) + clean_aliases(b));
    }
}

/// Known names are declared one for one, trimmed; a blank name alone is refused.
pub proof fn names_are_declared_one_for_one(pairs: Seq<(Seq<char>, Seq<Seq<char>>)>)
    ensures
        declared_names(pairs) is None <==> exists|i: int|
            0 <= i < pairs.len() && text::all_white((#[trigger] pairs[i]).0),
        declared_names(pairs) matches Some(known) ==> {
            &&& known.len() == pairs.len()
            &&& canonicals(known).len() == pairs.len()
            &&& forall|i: int|
                0 <= i < pairs.len() ==> {
                    &&& (#[trigger] known[i]).canonical == text::trimmed(pairs[i].0)
                    &&& known[i].aliases == clean_aliases(pairs[i].1)
                    &&& canonicals(known)[i] == text::trimmed(pairs[i].0)
                }
        },
{
    assert forall|i: int| 0 <= i < pairs.len() implies text::all_white((#[trigger] pairs[i]).0) == (
    text::trimmed(pairs[i].0).len() == 0) by {
        let s = pairs[i].0;
        let (a, b) = text::trimming_takes_off_only_white_space(s);
        if text::trimmed(s).len() == 0 {
            assert(s == a + b);
        }
        if text::all_white(s) {
            text::trimming_leaves_the_middle(s, seq![], seq![]);
            assert(s + Seq::<char>::empty() + Seq::<char>::empty() == s);
        }
    }
}

/// The speakers and the names left are told one by one: a speaker is left that has no name, and a
/// name is left that nobody has.
pub proof fn the_rest_is_told_one_by_one(
    a: Seq<Seq<char>>,
    one: Seq<char>,
    b: Seq<Seq<char>>,
    assigned: Map<Seq<char>, Seq<char>>,
)
    ensures
        unassigned(a + b, assigned) == unassigned(a, assigned) + unassigned(b, assigned),
        unassigned(seq![one], assigned) == if assigned.contains_key(one) {
            Seq::<Seq<char>>::empty()
        } else {
            seq![one]
        },
        remaining_names(a + b, assigned) == remaining_names(a, assigned) + remaining_names(
            b,
            assigned,
        ),
        remaining_names(seq![one], assigned) == if assigned.contains_value(one) {
            Seq::<Seq<char>>::empty()
        } else {
            seq![one]
        },
    decreases b.len(),
{
    let none = Seq::<Seq<char>>::empty();
    let single = seq![one];
    assert(single.drop_last() == none);
    assert(unassigned(none, assigned) == none);
    assert(remaining_names(none, assigned) == none);
    assert(is_taken(assigned, one) == assigned.contains_value(one)) by {
        if assigned.contains_value(one) {
            let t = choose|t: Seq<char>| assigned.dom().contains(t) && assigned[t] == one;
            assert(assigned.contains_key(t));
        }
    }
    assert(none.push(one) == single);
    assert(remaining_names(single, assigned) == if assigned.contains_value(one) {
        none
    } else {
        single
    });
    if b.len() == 0 {
        assert(a + b == a);
        assert(unassigned(a, assigned) + unassigned(b, assigned) == unassigned(a, assigned));
        assert(remaining_names(a, assigned) + remaining_names(b, assigned) == remaining_names(
            a,
            assigned,
        ));
    } else {
        assert((a + b).drop_last() == a + b.drop_last());
        assert((a + b).last() == b.last());
        the_rest_is_told_one_by_one(a, one, b.drop_last(), assigned);
        assert(unassigned(a + b, assigned) == unassigned(a, assigned) + unassigned(b, assigned));
        assert(remaining_names(a + b, assigned) == remaining_names(a, assigned) + remaining_names(
            b,
            assigned,
        ));
    }
}

/// The name left for a speaker is, where as many names as speakers are left, the name whose place
/// among those left is that of the speaker among the speakers left.
pub proof fn name_left_is_found_by_place(
    before: Seq<Seq<char>>,
    tag: Seq<char>,
    after: Seq<Seq<char>>,
    names: Seq<Seq<char>>,
    assigned: Map<Seq<char>, Seq<char>>,
)
    requires
        !before.contains(tag),
    ensures
        ({
            let tags = before + seq![tag] + after;
            let left = remaining_names(names, assigned);
            let place = unassigned(before, assigned).len() as int;
            let name = fallback_name(tag, assigned, tags, names);
            &&& !assigned.contains_key(tag) ==> place < unassigned(tags, assigned).len()
                && unassigned(tags, assigned)[place] == tag
            &&& left.len() == unassigned(tags, assigned).len() && place < left.len() ==> name
                == Some(left[place])
            &&& left.len() != unassigned(tags, assigned).len() || place >= left.len()
                ==> name is None
        }),
{
    let tags = before + seq![tag] + after;
    let at = before.len() as int;
    assert forall|k: int| 0 <= k < at implies tags[k] != tag by {
        assert(before[k] == tags[k]);
    }
    lemma_tags_before(tags, tag, at);
    assert(tags.take(at) == before);
    the_rest_is_told_one_by_one(before + seq![tag], tag, after, assigned);
    the_rest_is_told_one_by_one(before, tag, seq![tag], assigned);
}

/// The views of pairs of texts and of known names are those of their members, one for one.
pub proof fn pairs_and_names_are_seen_whole(
    pairs: Seq<(String, String)>,
    entries: Seq<KnownName>,
)
    ensures
        text_pairs(pairs).len() == pairs.len(),
        forall|i: int|
            0 <= i < pairs.len() ==> #[trigger] text_pairs(pairs)[i] == (pairs[i].0@, pairs[i].1@),
        known_views(entries).len() == entries.len(),
        forall|i: int| 0 <= i < entries.len() ==> #[trigger] known_views(entries)[i]
            == entries[i]@,
{
}

/// The kind of backend is what is asked for, letter by letter in lower case, and by words where
/// nothing is asked for; the command is what is given, but for white space at its ends.
pub proof fn backend_is_the_one_asked_for(
    env: Map<Seq<char>, Seq<char>>,
    before: Seq<char>,
    value: Seq<char>,
    after: Seq<char>,
)
    requires
        text::all_white(before),
        text::all_white(after),
        value.len() > 0,
        !text::white_space(value.first()),
        !text::white_space(value.last()),
    ensures
        env.contains_key("TETO_BRAIN_BACKEND"@) && env["TETO_BRAIN_BACKEND"@] == before + value
            + after ==> backend_kind(env).len() == value.len() && forall|i: int|
            0 <= i < value.len() ==> #[trigger] backend_kind(env)[i] == text::ascii_lower(value[i]),
        !env.contains_key("TETO_BRAIN_BACKEND"@) ==> backend_kind(env) == "regex"@,
        env.contains_key("TETO_BRAIN_COMMAND"@) && env["TETO_BRAIN_COMMAND"@] == before + value
            + after ==> backend_command(env) == value,
        !env.contains_key("TETO_BRAIN_COMMAND"@) ==> backend_command(env).len() == 0,
{
    text::trimming_leaves_the_middle(before, value, after);
    reveal_strlit("regex");
    reveal_strlit("");
    if !env.contains_key("TETO_BRAIN_BACKEND"@) {
        assert(backend_kind(env) == "regex"@);
    }
}

/// A blank text declares no names, and any other those of the map that it spells.
pub proof fn spelled_map_declares_the_names(
    raw: Seq<char>,
    pairs: Seq<(Seq<char>, Seq<Seq<char>>)>,
)
    ensures
        text::all_white(raw) ==> known_from(raw) == Some(Seq::<KnownNameView>::empty()),
        !text::all_white(raw) && json::alias_map(raw) == Some(pairs) ==> known_from(raw)
            == declared_names(pairs),
        !text::all_white(raw) && json::alias_map(raw) is None ==> known_from(raw) is None,
{
    let (a, b) = text::trimming_takes_off_only_white_space(raw);
    if text::trimmed(raw).len() == 0 {
        assert(raw == a + b);
    }
    if text::all_white(raw) {
        text::trimming_leaves_the_middle(raw, seq![], seq![]);
        assert(raw + Seq::<char>::empty() + Seq::<char>::empty() == raw);
    }
}

/// A speaker who comes a second time among those asked for, or is named already, is passed over; of
/// the others each in turn gets the name left, where there is one.
pub proof fn speakers_are_taken_in_turn(
    start: Map<Seq<char>, Seq<char>>,
    tags: Seq<Seq<char>>,
    names: Seq<Seq<char>>,
    n: nat,
)
    requires
        n < tags.len(),
    ensures
        ({
            let before = with_fallback(start, tags, names, n);
            let after = with_fallback(start, tags, names, n + 1);
            &&& with_fallback(start, tags, names, 0) == start
            &&& before.contains_key(tags[n as int]) ==> after == before
            &&& !before.contains_key(tags[n as int]) && fallback_name(
                tags[n as int],
                before,
                tags,
                names,
            ) is None ==> after == before
            &&& !before.contains_key(tags[n as int]) && fallback_name(
                tags[n as int],
                before,
                tags,
                names,
            ) is Some ==> after == before.insert(
                tags[n as int],
                fallback_name(tags[n as int], before, tags, names)->0,
            )
        }),
{
}

/// Whoever is not among those asked for has no name left.
pub proof fn strangers_have_no_name_left(
    tag: Seq<char>,
    assigned: Map<Seq<char>, Seq<char>>,
    tags: Seq<Seq<char>>,
    names: Seq<Seq<char>>,
)
    requires
        !tags.contains(tag),
    ensures
        fallback_name(tag, assigned, tags, names) is None,
{
    assert forall|k: int| 0 <= k < tags.len() implies tags[k] != tag by {
        assert(tags.contains(tags[k]));
    }
    lemma_tags_before(tags, tag, tags.len() as int);
    assert(tags.take(tags.len() as int) == tags);
}

} // verus!
