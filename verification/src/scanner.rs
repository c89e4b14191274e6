//! The PII scanner: finds what the privacy rules match in a text, and
//! redacts the findings whose action asks for it.
//!
//! Offsets are byte offsets into the UTF-8 encoding of the text, as in Rust's
//! `str`; the model is vstd's (`encode_utf8`, `decode_utf8`, `is_char_boundary`).
use vstd::prelude::*;
use vstd::utf8::*;
use crate::config::{PrivacyRule, PrivacyRuleView, rules_view, opt_view, copy_opt_string, copy_rules};
use crate::openai::{HeaderText, decimal_text, decimal_header_value};
use crate::text::{
    find_from, find_bytes, str_eq, utf8_str, byte_is_char_boundary, asterisks,
    lemma_find_from_first, lemma_valid_utf8_between_boundaries, lemma_asterisks_bytes, occurs_at,
};

verus! {

broadcast use vstd::utf8::encode_utf8_valid_utf8, vstd::utf8::encode_utf8_decode_utf8;

/// One match of a rule in a text.
#[derive(Debug)]
pub struct ScanResult {
    pub rule_name: String,
    pub match_content: String,
    pub start_index: usize,
    pub end_index: usize,
    pub action: Option<String>,
    pub replace: Option<String>,
}

pub struct ScanResultView {
    pub rule_name: Seq<char>,
    pub match_content: Seq<char>,
    pub start_index: usize,
    pub end_index: usize,
    pub action: Option<Seq<char>>,
    pub replace: Option<Seq<char>>,
}

impl View for ScanResult {
    type V = ScanResultView;

    open spec fn view(&self) -> ScanResultView {
        ScanResultView {
            rule_name: self.rule_name@,
            match_content: self.match_content@,
            start_index: self.start_index,
            end_index: self.end_index,
            action: opt_view(self.action),
            replace: opt_view(self.replace),
        }
    }
}

impl Clone for ScanResult {
    fn clone(&self) -> (c: Self)
        ensures
            c@ == self@,
    {
        ScanResult {
            rule_name: self.rule_name.clone(),
            match_content: self.match_content.clone(),
            start_index: self.start_index,
            end_index: self.end_index,
            action: copy_opt_string(&self.action),
            replace: copy_opt_string(&self.replace),
        }
    }
}

/// The views of a sequence of findings.
pub open spec fn findings_view(v: Seq<ScanResult>) -> Seq<ScanResultView> {
    v.map_values(|f: ScanResult| f@)
}

/* ---------- regular expressions (the `regex` crate) ---------- */

#[verifier::external_type_specification]
#[verifier::external_body]
pub struct ExRegex(regex::Regex);

#[verifier::external_type_specification]
#[verifier::external_body]
pub struct ExRegexError(regex::Error);

/// A regular expression together with the pattern it was compiled from.
pub struct CompiledPattern {
    pattern: String,
    regex: regex::Regex,
}

/// Whether `regex::Regex::new` accepts the pattern (it is valid, and the
/// compiled program stays within the default size limit).
pub uninterp spec fn regex_compiles(pattern: Seq<char>) -> bool;

/// The byte spans of the successive non-overlapping matches of the pattern
/// in the haystack, as `regex::Regex::find_iter` reports them.
pub uninterp spec fn regex_match_spans(pattern: Seq<char>, haystack: Seq<char>) -> Seq<(usize, usize)>;

/// Each span as the group-0 match of a `Captures`.
pub open spec fn as_group_zero(spans: Seq<(usize, usize)>) -> Seq<Option<(usize, usize)>> {
    spans.map_values(|sp: (usize, usize)| Some(sp))
}

/// `regex::Regex::new`: compiles the pattern. The contract claims that
/// success depends on the pattern alone, and keeps the pattern beside the
/// compiled program.
#[verifier::external_body]
fn compile_pattern(pattern: &str) -> (r: Result<CompiledPattern, regex::Error>)
    ensures
        r is Ok <==> regex_compiles(pattern@),
        r matches Ok(c) ==> c.pattern@ == pattern@,
{
    match regex::Regex::new(pattern) {
        Ok(regex) => Ok(CompiledPattern { pattern: pattern.to_owned(), regex }),
        Err(e) => Err(e),
    }
}

/// `regex::Regex::captures_iter`, with `Captures::get(0)` and the byte
/// offsets of each match. The contract claims what regex's documentation
/// says: `captures_iter` yields the same matches as `find_iter`, group 0 of
/// each is always present and is the overall match, and a `Match` has
/// `start <= end` with both offsets on UTF-8 character boundaries of the
/// haystack.
#[verifier::external_body]
fn capture_spans(compiled: &CompiledPattern, haystack: &str) -> (spans: Vec<Option<(usize, usize)>>)
    ensures
        spans@ == as_group_zero(regex_match_spans(compiled.pattern@, haystack@)),
        forall|i: int|
            0 <= i < spans@.len() ==> (#[trigger] spans@[i] matches Some(sp) ==> sp.0 <= sp.1
                && is_char_boundary(encode_utf8(haystack@), sp.0 as int) && is_char_boundary(
                encode_utf8(haystack@),
                sp.1 as int,
            )),
{
    compiled.regex.captures_iter(haystack).map(|caps| caps.get(0).map(|m| (m.start(), m.end()))).collect()
}

/* ---------- what a scan finds ---------- */

/// The finding of a pattern rule for the match at bytes `start..end` of the text.
pub open spec fn span_finding(rule: PrivacyRuleView, text: Seq<char>, start: usize, end: usize) -> ScanResultView {
    ScanResultView {
        rule_name: rule.name,
        match_content: decode_utf8(encode_utf8(text).subrange(start as int, end as int)),
        start_index: start,
        end_index: end,
        action: rule.action,
        replace: rule.replace,
    }
}

/// The findings of a pattern rule, one per match that has a group 0.
pub open spec fn pattern_findings(
    rule: PrivacyRuleView,
    text: Seq<char>,
    spans: Seq<Option<(usize, usize)>>,
) -> Seq<ScanResultView>
    decreases spans.len(),
{
    if spans.len() == 0 {
        Seq::empty()
    } else {
        let before = pattern_findings(rule, text, spans.drop_last());
        match spans.last() {
            Some(sp) => before.push(span_finding(rule, text, sp.0, sp.1)),
            None => before,
        }
    }
}

/// The finding of an entity rule: the first occurrence of its keyword.
pub open spec fn entity_findings(rule: PrivacyRuleView, text: Seq<char>) -> Seq<ScanResultView> {
    match find_from(encode_utf8(text), encode_utf8(rule.value), 0) {
        Some(k) => seq![
            ScanResultView {
                rule_name: rule.name,
                match_content: rule.value,
                start_index: k as usize,
                end_index: (k + encode_utf8(rule.value).len()) as usize,
                action: rule.action,
                replace: rule.replace,
            },
        ],
        None => Seq::empty(),
    }
}

/// What one rule finds in a text: all regex matches of a `"pattern"` rule
/// whose pattern compiles, the first occurrence of the keyword of an
/// `"entity"` rule, and nothing for any other rule type.
pub open spec fn rule_findings(rule: PrivacyRuleView, text: Seq<char>) -> Seq<ScanResultView> {
    if rule.rule_type == "pattern"@ {
        if regex_compiles(rule.value) {
            pattern_findings(rule, text, as_group_zero(regex_match_spans(rule.value, text)))
        } else {
            Seq::empty()
        }
    } else if rule.rule_type == "entity"@ {
        entity_findings(rule, text)
    } else {
        Seq::empty()
    }
}

proof fn lemma_group_zero_findings(rule: PrivacyRuleView, text: Seq<char>, spans: Seq<(usize, usize)>)
    ensures
        pattern_findings(rule, text, as_group_zero(spans)) == spans.map_values(
            |sp: (usize, usize)| span_finding(rule, text, sp.0, sp.1),
        ),
    decreases spans.len(),
{
    if spans.len() > 0 {
        let rest = spans.drop_last();
        lemma_group_zero_findings(rule, text, rest);
        assert(as_group_zero(spans).drop_last() =~= as_group_zero(rest));
        assert(spans.map_values(|sp: (usize, usize)| span_finding(rule, text, sp.0, sp.1)) =~= rest.map_values(
            |sp: (usize, usize)| span_finding(rule, text, sp.0, sp.1),
        ).push(span_finding(rule, text, spans.last().0, spans.last().1)));
    } else {
        assert(as_group_zero(spans) =~= Seq::<Option<(usize, usize)>>::empty());
        assert(spans.map_values(|sp: (usize, usize)| span_finding(rule, text, sp.0, sp.1)) =~= Seq::<
            ScanResultView,
        >::empty());
    }
}

/// A pattern rule whose pattern compiles finds exactly the regex's matches:
/// one finding per match, in the order the matches come, none missing and
/// none added, each carrying the match's byte span and text.
pub proof fn lemma_pattern_findings_are_matches(rule: PrivacyRuleView, text: Seq<char>)
    requires
        rule.rule_type == "pattern"@,
        regex_compiles(rule.value),
    ensures
        rule_findings(rule, text) == regex_match_spans(rule.value, text).map_values(
            |sp: (usize, usize)| span_finding(rule, text, sp.0, sp.1),
        ),
{
    lemma_group_zero_findings(rule, text, regex_match_spans(rule.value, text));
}

/// Every finding of a rule carries that rule's name, action and replace
/// text, whatever the rule's type: a pattern rule's matches and an entity
/// rule's keyword alike.
pub proof fn lemma_findings_carry_their_rule(rule: PrivacyRuleView, text: Seq<char>)
    ensures
        forall|i: int|
            0 <= i < rule_findings(rule, text).len() ==> {
                let f = #[trigger] rule_findings(rule, text)[i];
                &&& f.rule_name == rule.name
                &&& f.action == rule.action
                &&& f.replace == rule.replace
            },
{
    if rule.rule_type == "pattern"@ && regex_compiles(rule.value) {
        lemma_pattern_findings_are_matches(rule, text);
    }
}

/// An entity rule whose keyword occurs in the text finds exactly one match:
/// the keyword's first occurrence, with the rule's action and replace text.
pub proof fn lemma_entity_finds_first_occurrence(rule: PrivacyRuleView, text: Seq<char>, k: int)
    requires
        encode_utf8(text).len() <= usize::MAX,
        rule.rule_type == "entity"@,
        find_from(encode_utf8(text), encode_utf8(rule.value), 0) == Some(k),
    ensures
        occurs_at(encode_utf8(text), encode_utf8(rule.value), k),
        forall|j: int| 0 <= j < k ==> !occurs_at(encode_utf8(text), encode_utf8(rule.value), j),
        rule_findings(rule, text).len() == 1,
        rule_findings(rule, text)[0].start_index == k,
        rule_findings(rule, text)[0].match_content == rule.value,
        rule_findings(rule, text)[0].action == rule.action,
        rule_findings(rule, text)[0].replace == rule.replace,
{
    reveal_strlit("entity");
    reveal_strlit("pattern");
    lemma_find_from_first(encode_utf8(text), encode_utf8(rule.value), 0);
    assert(rule.rule_type != "pattern"@) by {
        assert(rule.rule_type.len() != "pattern"@.len());
    }
}

/// What a list of rules finds in a text, rule by rule in order.
pub open spec fn scan_rules(rules: Seq<PrivacyRuleView>, text: Seq<char>) -> Seq<ScanResultView>
    decreases rules.len(),
{
    if rules.len() == 0 {
        Seq::empty()
    } else {
        scan_rules(rules.drop_last(), text) + rule_findings(rules.last(), text)
    }
}

/// Scanning with a single rule finds exactly what that rule finds.
pub proof fn lemma_scan_single_rule(rule: PrivacyRuleView, text: Seq<char>)
    ensures
        scan_rules(seq![rule], text) == rule_findings(rule, text),
{
    assert(seq![rule].drop_last() =~= Seq::<PrivacyRuleView>::empty());
    assert(scan_rules(Seq::<PrivacyRuleView>::empty(), text) + rule_findings(rule, text) =~= rule_findings(
        rule,
        text,
    ));
}

/// A finding points into the text: its byte range lies on character
/// boundaries of the text's encoding, and its content is what that range holds.
pub open spec fn finding_in_text(f: ScanResultView, text: Seq<char>) -> bool {
    &&& f.start_index <= f.end_index
    &&& is_char_boundary(encode_utf8(text), f.start_index as int)
    &&& is_char_boundary(encode_utf8(text), f.end_index as int)
    &&& f.match_content == decode_utf8(
        encode_utf8(text).subrange(f.start_index as int, f.end_index as int),
    )
}

/* ---------- what a redaction does ---------- */

/// Whether a finding's action asks for its text to be replaced.
pub open spec fn redacting_action(action: Option<Seq<char>>) -> bool {
    action == Some("redact"@) || action == Some("block"@)
}

/// The text that replaces a finding: the rule's `replace`, or as many
/// asterisks as the matched text has bytes.
pub open spec fn replacement_text(f: ScanResultView) -> Seq<char> {
    match f.replace {
        Some(r) => r,
        None => asterisks(encode_utf8(f.match_content).len()),
    }
}

/// One step of redaction on the current bytes: a non-redacting finding
/// leaves them alone; a redacting one replaces bytes `start..end` by its
/// replacement, and fails (`None`) unless both offsets are character
/// boundaries of the current bytes with `start <= end`.
pub open spec fn apply_finding(bytes: Seq<u8>, f: ScanResultView) -> Option<Seq<u8>> {
    if !redacting_action(f.action) {
        Some(bytes)
    } else if f.start_index <= f.end_index && is_char_boundary(bytes, f.start_index as int)
        && is_char_boundary(bytes, f.end_index as int) {
        Some(
            bytes.subrange(0, f.start_index as int) + encode_utf8(replacement_text(f))
                + bytes.subrange(f.end_index as int, bytes.len() as int),
        )
    } else {
        None
    }
}

/// The findings applied one after the other, in order.
pub open spec fn apply_findings(bytes: Seq<u8>, fs: Seq<ScanResultView>) -> Option<Seq<u8>>
    decreases fs.len(),
{
    if fs.len() == 0 {
        Some(bytes)
    } else {
        match apply_findings(bytes, fs.drop_last()) {
            Some(b) => apply_finding(b, fs.last()),
            None => None,
        }
    }
}

/// `f` put into a sequence sorted by descending start: before the first
/// element that does not start after it.
pub open spec fn insert_by_start(sorted: Seq<ScanResultView>, f: ScanResultView) -> Seq<ScanResultView>
    decreases sorted.len(),
{
    if sorted.len() == 0 {
        seq![f]
    } else if sorted[0].start_index <= f.start_index {
        seq![f] + sorted
    } else {
        seq![sorted[0]] + insert_by_start(sorted.drop_first(), f)
    }
}

/// The findings in descending order of start offset; findings with equal
/// starts keep their relative order (a stable sort).
pub open spec fn sort_by_start_desc(fs: Seq<ScanResultView>) -> Seq<ScanResultView>
    decreases fs.len(),
{
    if fs.len() == 0 {
        fs
    } else {
        insert_by_start(sort_by_start_desc(fs.drop_first()), fs[0])
    }
}

/// The redacted text: the findings applied to the text's bytes from the last
/// start offset to the first. `None` where a step fails.
pub open spec fn redaction(text: Seq<char>, findings: Seq<ScanResultView>) -> Option<Seq<char>> {
    match apply_findings(encode_utf8(text), sort_by_start_desc(findings)) {
        Some(b) => Some(decode_utf8(b)),
        None => None,
    }
}

/// What redacting a request body does.
pub enum BodyRedaction {
    /// The body is kept as it is: it is not UTF-8 text, or redaction changed nothing.
    Unchanged,
    /// The body is replaced by this text; `content_length` is the header
    /// value that gives its length in bytes.
    Redacted { text: String, content_length: HeaderText },
    /// A finding could not be applied (see `redaction`).
    Unredactable,
}

/* ---------- lemmas ---------- */

proof fn lemma_insert_by_start_at(sorted: Seq<ScanResultView>, f: ScanResultView, p: int)
    requires
        0 <= p <= sorted.len(),
        forall|k: int| 0 <= k < p ==> sorted[k].start_index > f.start_index,
        p < sorted.len() ==> sorted[p].start_index <= f.start_index,
    ensures
        insert_by_start(sorted, f) == sorted.insert(p, f),
    decreases sorted.len(),
{
    if sorted.len() == 0 {
        assert(sorted.insert(p, f) =~= seq![f]);
    } else if p == 0 {
        assert(sorted.insert(p, f) =~= seq![f] + sorted);
    } else {
        lemma_insert_by_start_at(sorted.drop_first(), f, p - 1);
        assert(sorted.insert(p, f) =~= seq![sorted[0]] + sorted.drop_first().insert(p - 1, f));
    }
}

/// A prefix of a successful sequence of steps succeeds.
proof fn lemma_apply_prefix(bytes: Seq<u8>, fs: Seq<ScanResultView>, i: int)
    requires
        apply_findings(bytes, fs) is Some,
        0 <= i <= fs.len(),
    ensures
        apply_findings(bytes, fs.take(i)) is Some,
    decreases fs.len(),
{
    if i == fs.len() {
        assert(fs.take(i) =~= fs);
    } else {
        lemma_apply_prefix(bytes, fs.drop_last(), i);
        assert(fs.drop_last().take(i) =~= fs.take(i));
    }
}

/// A step keeps the bytes valid UTF-8.
proof fn lemma_apply_finding_valid(bytes: Seq<u8>, f: ScanResultView)
    requires
        valid_utf8(bytes),
        apply_finding(bytes, f) is Some,
    ensures
        valid_utf8(apply_finding(bytes, f)->0),
{
    if redacting_action(f.action) {
        let s = f.start_index as int;
        let e = f.end_index as int;
        lemma_valid_utf8_between_boundaries(bytes, s, e);
        valid_utf8_split(bytes, s);
        valid_utf8_split(bytes, e);
        let rep = encode_utf8(replacement_text(f));
        valid_utf8_concat(bytes.subrange(0, s), rep);
        valid_utf8_concat(bytes.subrange(0, s) + rep, bytes.subrange(e, bytes.len() as int));
    }
}

/// Every step of a successful sequence keeps the bytes valid UTF-8.
proof fn lemma_apply_findings_valid(bytes: Seq<u8>, fs: Seq<ScanResultView>)
    requires
        valid_utf8(bytes),
        apply_findings(bytes, fs) is Some,
    ensures
        valid_utf8(apply_findings(bytes, fs)->0),
    decreases fs.len(),
{
    if fs.len() > 0 {
        lemma_apply_findings_valid(bytes, fs.drop_last());
        lemma_apply_finding_valid(apply_findings(bytes, fs.drop_last())->0, fs.last());
    }
}

/// The end of a valid prefix is a character boundary of the whole.
proof fn lemma_prefix_boundary(a: Seq<u8>, r: Seq<u8>)
    requires
        valid_utf8(a),
        valid_utf8(a + r),
    ensures
        is_char_boundary(a + r, a.len() as int),
    decreases a.len(),
{
    if a.len() > 0 {
        let b = a + r;
        assert(b[0] == a[0]);
        let l = length_of_first_scalar(a);
        assert(length_of_first_scalar(b) == l);
        assert(pop_first_scalar(b) =~= pop_first_scalar(a) + r);
        lemma_prefix_boundary(pop_first_scalar(a), r);
    }
}

/// An occurrence of valid UTF-8 inside valid UTF-8 that starts on a
/// boundary (an empty one only at offset 0) also ends on one.
proof fn lemma_occurrence_boundaries(hay: Seq<u8>, needle: Seq<u8>, k: int)
    requires
        valid_utf8(hay),
        valid_utf8(needle),
        occurs_at(hay, needle, k),
        needle.len() == 0 ==> k == 0,
    ensures
        is_char_boundary(hay, k),
        is_char_boundary(hay, k + needle.len()),
{
    let n = needle.len() as int;
    is_char_boundary_start_end_of_seq(hay);
    if n > 0 {
        is_char_boundary_iff_not_is_continuation_byte(needle, 0);
        assert(hay[k] == needle[0]) by {
            assert(hay.subrange(k, k + n)[0] == hay[k]);
        }
        is_char_boundary_iff_not_is_continuation_byte(hay, k);
    }
    valid_utf8_split(hay, k);
    let c = hay.subrange(k, hay.len() as int);
    let r = hay.subrange(k + n, hay.len() as int);
    assert(c =~= needle + r);
    lemma_prefix_boundary(needle, r);
    if k + n < hay.len() {
        is_char_boundary_iff_not_is_continuation_byte(c, n);
        assert(c[n] == hay[k + n]);
        is_char_boundary_iff_not_is_continuation_byte(hay, k + n);
    }
}


/* ---------- laws ---------- */

/// Findings in descending order of start offset.
pub open spec fn sorted_by_start_desc(s: Seq<ScanResultView>) -> bool {
    forall|i: int, j: int| 0 <= i < j < s.len() ==> s[i].start_index >= s[j].start_index
}

proof fn lemma_insert_by_start_sorted(s: Seq<ScanResultView>, f: ScanResultView)
    requires
        sorted_by_start_desc(s),
    ensures
        sorted_by_start_desc(insert_by_start(s, f)),
        insert_by_start(s, f).to_multiset() == s.to_multiset().insert(f),
        insert_by_start(s, f).len() == s.len() + 1,
        forall|i: int|
            0 <= i < insert_by_start(s, f).len() ==> #[trigger] insert_by_start(s, f)[i] == f
                || s.contains(insert_by_start(s, f)[i]),
    decreases s.len(),
{
    broadcast use vstd::seq_lib::to_multiset_insert, vstd::multiset::group_multiset_axioms;

    if s.len() == 0 {
        assert(seq![f] =~= s.insert(0, f));
    } else if s[0].start_index <= f.start_index {
        assert(seq![f] + s =~= s.insert(0, f));
    } else {
        let rest = s.drop_first();
        lemma_insert_by_start_sorted(rest, f);
        let ins = insert_by_start(rest, f);
        assert(seq![s[0]] + ins =~= ins.insert(0, s[0]));
        assert(s =~= rest.insert(0, s[0]));
        assert(ins.to_multiset().insert(s[0]) =~= s.to_multiset().insert(f));
        let res = seq![s[0]] + ins;
        assert forall|i: int| 0 <= i < res.len() implies #[trigger] res[i] == f || s.contains(res[i]) by {
            if i > 0 {
                assert(res[i] == ins[i - 1]);
                if res[i] != f {
                    let k = choose|k: int| 0 <= k < rest.len() && rest[k] == ins[i - 1];
                    assert(s[k + 1] == rest[k]);
                }
            } else {
                assert(s[0] == res[0]);
            }
        }
        assert forall|i: int, j: int| 0 <= i < j < res.len() implies res[i].start_index
            >= res[j].start_index by {
            if i == 0 {
                if res[j] != f {
                    let k = choose|k: int| 0 <= k < s.len() && s[k] == res[j];
                    if k > 0 {
                        assert(s[0].start_index >= s[k].start_index);
                    }
                }
            } else {
                assert(res[i] == ins[i - 1] && res[j] == ins[j - 1]);
            }
        }
    }
}

/// Sorting puts the findings in descending order of start offset, and
/// keeps exactly the same findings.
pub proof fn lemma_sort_by_start_desc(fs: Seq<ScanResultView>)
    ensures
        sorted_by_start_desc(sort_by_start_desc(fs)),
        sort_by_start_desc(fs).to_multiset() == fs.to_multiset(),
        sort_by_start_desc(fs).len() == fs.len(),
    decreases fs.len(),
{
    broadcast use vstd::seq_lib::to_multiset_insert, vstd::multiset::group_multiset_axioms;

    if fs.len() == 0 {
    } else {
        let rest = fs.drop_first();
        lemma_sort_by_start_desc(rest);
        lemma_insert_by_start_sorted(sort_by_start_desc(rest), fs[0]);
        assert(fs =~= rest.insert(0, fs[0]));
    }
}

/// Every finding in the sorted sequence is one of the findings.
proof fn lemma_sorted_elements(fs: Seq<ScanResultView>)
    ensures
        forall|i: int|
            0 <= i < sort_by_start_desc(fs).len() ==> fs.contains(#[trigger] sort_by_start_desc(fs)[i]),
{
    broadcast use vstd::seq_lib::to_multiset_contains;

    lemma_sort_by_start_desc(fs);
    assert forall|i: int| 0 <= i < sort_by_start_desc(fs).len() implies fs.contains(
        #[trigger] sort_by_start_desc(fs)[i],
    ) by {
        let x = sort_by_start_desc(fs)[i];
        assert(sort_by_start_desc(fs).contains(x));
        assert(sort_by_start_desc(fs).to_multiset().count(x) > 0);
    }
}

proof fn lemma_apply_non_redacting(bytes: Seq<u8>, fs: Seq<ScanResultView>)
    requires
        forall|i: int| 0 <= i < fs.len() ==> !redacting_action(#[trigger] fs[i].action),
    ensures
        apply_findings(bytes, fs) == Some(bytes),
    decreases fs.len(),
{
    if fs.len() > 0 {
        lemma_apply_non_redacting(bytes, fs.drop_last());
        assert(!redacting_action(fs[fs.len() - 1].action));
    }
}

/// Findings whose action is not `"redact"` or `"block"` leave the text as it is.
pub proof fn lemma_non_redacting_findings_keep_text(text: Seq<char>, fs: Seq<ScanResultView>)
    requires
        forall|i: int| 0 <= i < fs.len() ==> !redacting_action(#[trigger] fs[i].action),
    ensures
        redaction(text, fs) == Some(text),
{
    lemma_sorted_elements(fs);
    let sorted = sort_by_start_desc(fs);
    assert forall|i: int| 0 <= i < sorted.len() implies !redacting_action(#[trigger] sorted[i].action) by {
        assert(fs.contains(sorted[i]));
    }
    lemma_apply_non_redacting(encode_utf8(text), sorted);
}

/// UTF-8 encoding maps concatenation to concatenation.
pub proof fn lemma_encode_utf8_concat(a: Seq<char>, b: Seq<char>)
    ensures
        encode_utf8(a + b) == encode_utf8(a) + encode_utf8(b),
    decreases a.len(),
{
    if a.len() == 0 {
        assert(a + b =~= b);
        assert(encode_utf8(a) + encode_utf8(b) =~= encode_utf8(b));
    } else {
        lemma_encode_utf8_concat(a.drop_first(), b);
        assert((a + b).drop_first() =~= a.drop_first() + b);
        assert((a + b)[0] == a[0]);
        assert(encode_utf8(a + b) =~= encode_utf8(a) + encode_utf8(b));
    }
}

/// Decoding valid UTF-8 maps concatenation to concatenation.
pub proof fn lemma_decode_utf8_concat(a: Seq<u8>, b: Seq<u8>)
    requires
        valid_utf8(a),
        valid_utf8(b),
    ensures
        decode_utf8(a + b) == decode_utf8(a) + decode_utf8(b),
{
    broadcast use vstd::utf8::decode_utf8_encode_utf8;

    lemma_encode_utf8_concat(decode_utf8(a), decode_utf8(b));
    assert(encode_utf8(decode_utf8(a) + decode_utf8(b)) == a + b);
}

/// The text before a finding (the bytes before its start).
pub open spec fn text_before(text: Seq<char>, f: ScanResultView) -> Seq<char> {
    decode_utf8(encode_utf8(text).subrange(0, f.start_index as int))
}

/// The text after a finding (the bytes from its end).
pub open spec fn text_after(text: Seq<char>, f: ScanResultView) -> Seq<char> {
    decode_utf8(encode_utf8(text).subrange(f.end_index as int, encode_utf8(text).len() as int))
}

/// A finding that points into the text splits it into what comes before,
/// the match, and what comes after; redacting that one finding puts its
/// replacement in place of the match and keeps the rest.
pub proof fn lemma_redact_one_finding(text: Seq<char>, f: ScanResultView)
    requires
        finding_in_text(f, text),
        redacting_action(f.action),
    ensures
        text == text_before(text, f) + f.match_content + text_after(text, f),
        redaction(text, seq![f]) == Some(text_before(text, f) + replacement_text(f) + text_after(text, f)),
{
    let tb = encode_utf8(text);
    let s = f.start_index as int;
    let e = f.end_index as int;
    lemma_valid_utf8_between_boundaries(tb, s, e);
    valid_utf8_split(tb, s);
    valid_utf8_split(tb, e);
    let pre = tb.subrange(0, s);
    let mid = tb.subrange(s, e);
    let post = tb.subrange(e, tb.len() as int);
    let rep = encode_utf8(replacement_text(f));
    assert(tb =~= pre + mid + post);
    valid_utf8_concat(pre, mid);
    lemma_decode_utf8_concat(pre, mid);
    lemma_decode_utf8_concat(pre + mid, post);
    assert(text == decode_utf8(tb));
    let one = seq![f];
    let none = one.drop_first();
    assert(none =~= Seq::<ScanResultView>::empty());
    assert(sort_by_start_desc(none) == none);
    assert(insert_by_start(none, f) == one);
    assert(sort_by_start_desc(one) == one);
    assert(one.drop_last() =~= Seq::<ScanResultView>::empty());
    assert(apply_findings(tb, one.drop_last()) == Some(tb));
    assert(one.last() == f);
    assert(apply_findings(tb, one) == Some(pre + rep + post));
    assert(valid_utf8(rep));
    assert(decode_utf8(rep) == replacement_text(f));
    valid_utf8_concat(pre, rep);
    lemma_decode_utf8_concat(pre, rep);
    lemma_decode_utf8_concat(pre + rep, post);
}

/// A redacting finding is replaced by exactly its `replace` text, whatever
/// that text is (the empty text included), and by one `*` per byte of the
/// match only when it has none; the text around it is kept.
pub proof fn lemma_replace_text_takes_the_match_place(text: Seq<char>, f: ScanResultView)
    requires
        finding_in_text(f, text),
        redacting_action(f.action),
    ensures
        f.replace matches Some(r) ==> redaction(text, seq![f]) == Some(
            text_before(text, f) + r + text_after(text, f),
        ),
        f.replace is None ==> redaction(text, seq![f]) == Some(
            text_before(text, f) + Seq::new((f.end_index - f.start_index) as nat, |_i: int| '*')
                + text_after(text, f),
        ),
{
    broadcast use vstd::utf8::decode_utf8_encode_utf8;

    lemma_redact_one_finding(text, f);
    let tb = encode_utf8(text);
    lemma_valid_utf8_between_boundaries(tb, f.start_index as int, f.end_index as int);
    assert(encode_utf8(f.match_content) == tb.subrange(f.start_index as int, f.end_index as int));
    if f.replace is None {
        assert(asterisks(encode_utf8(f.match_content).len()) =~= Seq::new(
            (f.end_index - f.start_index) as nat,
            |_i: int| '*',
        ));
    }
}

proof fn lemma_apply_masks_keep_length(bytes: Seq<u8>, fs: Seq<ScanResultView>)
    requires
        valid_utf8(bytes),
        apply_findings(bytes, fs) is Some,
        forall|i: int|
            0 <= i < fs.len() ==> (#[trigger] fs[i]).replace is None && fs[i].start_index
                <= fs[i].end_index && encode_utf8(fs[i].match_content).len() == fs[i].end_index
                - fs[i].start_index,
    ensures
        apply_findings(bytes, fs)->0.len() == bytes.len(),
    decreases fs.len(),
{
    if fs.len() > 0 {
        let prev = fs.drop_last();
        assert forall|i: int| 0 <= i < prev.len() implies (#[trigger] prev[i]).replace is None
            && prev[i].start_index <= prev[i].end_index && encode_utf8(prev[i].match_content).len()
            == prev[i].end_index - prev[i].start_index by {
            assert(prev[i] == fs[i]);
        }
        lemma_apply_masks_keep_length(bytes, prev);
        lemma_apply_findings_valid(bytes, prev);
        let b = apply_findings(bytes, prev)->0;
        let f = fs.last();
        assert(f == fs[fs.len() - 1]);
        if redacting_action(f.action) {
            lemma_valid_utf8_between_boundaries(b, f.start_index as int, f.end_index as int);
            lemma_asterisks_bytes(encode_utf8(f.match_content).len());
        }
    }
}

/// Masking keeps the byte length: redacting findings that point into the
/// text, with no `replace` text (so each is masked with asterisks), yields a
/// text of the same UTF-8 length, whenever the redaction succeeds.
pub proof fn lemma_masking_keeps_byte_length(text: Seq<char>, fs: Seq<ScanResultView>)
    requires
        forall|i: int| 0 <= i < fs.len() ==> finding_in_text(#[trigger] fs[i], text),
        forall|i: int| 0 <= i < fs.len() ==> (#[trigger] fs[i]).replace is None,
        redaction(text, fs) is Some,
    ensures
        encode_utf8(redaction(text, fs)->0).len() == encode_utf8(text).len(),
{
    broadcast use vstd::utf8::decode_utf8_encode_utf8;

    let tb = encode_utf8(text);
    let sorted = sort_by_start_desc(fs);
    lemma_sorted_elements(fs);
    assert forall|i: int| 0 <= i < sorted.len() implies (#[trigger] sorted[i]).replace is None
        && sorted[i].start_index <= sorted[i].end_index && encode_utf8(sorted[i].match_content).len()
        == sorted[i].end_index - sorted[i].start_index by {
        assert(fs.contains(sorted[i]));
        let k = choose|k: int| 0 <= k < fs.len() && fs[k] == sorted[i];
        assert(finding_in_text(fs[k], text));
        lemma_valid_utf8_between_boundaries(tb, sorted[i].start_index as int, sorted[i].end_index as int);
    }
    lemma_apply_masks_keep_length(tb, sorted);
    lemma_apply_findings_valid(tb, sorted);
}

/// Two findings' byte ranges do not overlap.
pub open spec fn findings_disjoint(a: ScanResultView, b: ScanResultView) -> bool {
    a.end_index <= b.start_index || b.end_index <= a.start_index
}

/// Up to a boundary `m` that two valid sequences share with equal bytes
/// before it, they have the same character boundaries.
proof fn lemma_boundary_transfer(b: Seq<u8>, t: Seq<u8>, m: int, x: int)
    requires
        valid_utf8(b),
        valid_utf8(t),
        0 <= m <= b.len(),
        m <= t.len(),
        b.subrange(0, m) == t.subrange(0, m),
        is_char_boundary(b, m),
        is_char_boundary(t, m),
        0 <= x <= m,
    ensures
        is_char_boundary(b, x) == is_char_boundary(t, x),
{
    if 0 < x < m {
        is_char_boundary_iff_not_is_continuation_byte(b, x);
        is_char_boundary_iff_not_is_continuation_byte(t, x);
        assert(b[x] == b.subrange(0, m)[x]);
        assert(t[x] == t.subrange(0, m)[x]);
    }
}

/* ---------- several disjoint findings ---------- */

/// Whether applying a finding changes the bytes: it redacts, and it is not
/// an empty span replaced by empty text.
pub open spec fn spliced(f: ScanResultView) -> bool {
    redacting_action(f.action) && (f.start_index != f.end_index || encode_utf8(replacement_text(f)).len()
        != 0)
}

/// The bytes with the redacting findings replaced at their own offsets, for
/// findings sorted by descending start: the first finding's span is
/// replaced, the bytes after it are kept, and the bytes before it are
/// treated the same way with the remaining findings.
pub open spec fn splice_findings(bytes: Seq<u8>, fs: Seq<ScanResultView>) -> Seq<u8>
    decreases fs.len(),
{
    if fs.len() == 0 {
        bytes
    } else if !spliced(fs[0]) {
        splice_findings(bytes, fs.drop_first())
    } else {
        splice_findings(bytes.subrange(0, fs[0].start_index as int), fs.drop_first())
            + encode_utf8(replacement_text(fs[0])) + bytes.subrange(
            fs[0].end_index as int,
            bytes.len() as int,
        )
    }
}

/// Every redacting finding lies on character boundaries of the bytes, and a
/// redacting finding ends before an earlier-listed one that changes the bytes starts.
pub open spec fn spliceable(bytes: Seq<u8>, fs: Seq<ScanResultView>) -> bool {
    &&& forall|i: int|
        0 <= i < fs.len() && redacting_action(#[trigger] fs[i].action) ==> fs[i].start_index
            <= fs[i].end_index && is_char_boundary(bytes, fs[i].start_index as int)
            && is_char_boundary(bytes, fs[i].end_index as int)
    &&& forall|i: int, j: int|
        0 <= i < j < fs.len() && spliced(#[trigger] fs[i]) && redacting_action(#[trigger] fs[j].action)
            ==> fs[j].end_index <= fs[i].start_index
}

/// Applying findings one by one, seen from the first finding.
proof fn lemma_apply_front(b: Seq<u8>, fs: Seq<ScanResultView>)
    requires
        fs.len() > 0,
    ensures
        apply_findings(b, fs) == match apply_finding(b, fs[0]) {
            Some(b1) => apply_findings(b1, fs.drop_first()),
            None => None,
        },
    decreases fs.len(),
{
    if fs.len() == 1 {
        assert(fs.drop_last() =~= Seq::<ScanResultView>::empty());
        assert(fs.drop_first() =~= Seq::<ScanResultView>::empty());
        assert(fs.last() == fs[0]);
    } else {
        let dl = fs.drop_last();
        lemma_apply_front(b, dl);
        assert(dl[0] == fs[0]);
        assert(dl.drop_first() =~= fs.drop_first().drop_last());
        assert(fs.drop_first().last() == fs.last());
    }
}

/// Applying spliceable findings to `x + y` splices them into `x` and keeps `y`.
proof fn lemma_apply_splice(x: Seq<u8>, y: Seq<u8>, fs: Seq<ScanResultView>)
    requires
        valid_utf8(x),
        valid_utf8(y),
        spliceable(x, fs),
    ensures
        apply_findings(x + y, fs) == Some(splice_findings(x, fs) + y),
        valid_utf8(splice_findings(x, fs)),
    decreases fs.len(),
{
    if fs.len() == 0 {
        assert(fs.len() == 0);
    } else {
        lemma_apply_front(x + y, fs);
        let f = fs[0];
        let rest = fs.drop_first();
        let xy = x + y;
        valid_utf8_concat(x, y);
        is_char_boundary_start_end_of_seq(x);
        lemma_prefix_boundary(x, y);
        assert(xy.subrange(0, x.len() as int) =~= x.subrange(0, x.len() as int));
        if !spliced(f) {
            if redacting_action(f.action) {
                let s = f.start_index as int;
                assert(redacting_action(fs[0].action));
                assert(f.start_index == f.end_index);
                lemma_boundary_transfer(xy, x, x.len() as int, s);
                assert(encode_utf8(replacement_text(f)) =~= Seq::<u8>::empty());
                assert(xy.subrange(0, s) + encode_utf8(replacement_text(f)) + xy.subrange(s, xy.len() as int)
                    =~= xy);
            }
            assert(apply_finding(xy, f) == Some(xy));
            assert(spliceable(x, rest)) by {
                assert forall|i: int| 0 <= i < rest.len() && redacting_action(#[trigger] rest[i].action) implies rest[i].start_index
                    <= rest[i].end_index && is_char_boundary(x, rest[i].start_index as int)
                    && is_char_boundary(x, rest[i].end_index as int) by {
                    assert(rest[i] == fs[i + 1]);
                }
                assert forall|i: int, j: int|
                    0 <= i < j < rest.len() && spliced(#[trigger] rest[i]) && redacting_action(
                        #[trigger] rest[j].action,
                    ) implies rest[j].end_index <= rest[i].start_index by {
                    assert(rest[i] == fs[i + 1] && rest[j] == fs[j + 1]);
                }
            }
            lemma_apply_splice(x, y, rest);
        } else {
            let s = f.start_index as int;
            let e = f.end_index as int;
            assert(redacting_action(fs[0].action));
            lemma_valid_utf8_between_boundaries(x, s, e);
            lemma_boundary_transfer(xy, x, x.len() as int, s);
            lemma_boundary_transfer(xy, x, x.len() as int, e);
            let rep = encode_utf8(replacement_text(f));
            let x2 = x.subrange(0, s);
            let tail = x.subrange(e, x.len() as int);
            let y2 = rep + tail + y;
            valid_utf8_split(x, s);
            valid_utf8_split(x, e);
            valid_utf8_concat(rep, tail);
            valid_utf8_concat(rep + tail, y);
            assert(xy.subrange(0, s) =~= x2);
            assert(xy.subrange(e, xy.len() as int) =~= tail + y);
            assert(apply_finding(xy, f) == Some(x2 + y2)) by {
                assert(x2 + rep + (tail + y) =~= x2 + y2);
            }
            is_char_boundary_start_end_of_seq(x2);
            assert(x2.subrange(0, s) =~= x.subrange(0, s));
            assert(spliceable(x2, rest)) by {
                assert forall|i: int| 0 <= i < rest.len() && redacting_action(#[trigger] rest[i].action) implies rest[i].start_index
                    <= rest[i].end_index && is_char_boundary(x2, rest[i].start_index as int)
                    && is_char_boundary(x2, rest[i].end_index as int) by {
                    assert(rest[i] == fs[i + 1]);
                    assert(redacting_action(fs[i + 1].action));
                    assert(spliced(fs[0]));
                    assert(fs[i + 1].end_index <= fs[0].start_index);
                    lemma_boundary_transfer(x2, x, s, rest[i].start_index as int);
                    lemma_boundary_transfer(x2, x, s, rest[i].end_index as int);
                }
                assert forall|i: int, j: int|
                    0 <= i < j < rest.len() && spliced(#[trigger] rest[i]) && redacting_action(
                        #[trigger] rest[j].action,
                    ) implies rest[j].end_index <= rest[i].start_index by {
                    assert(rest[i] == fs[i + 1] && rest[j] == fs[j + 1]);
                }
            }
            lemma_apply_splice(x2, y2, rest);
            let sp = splice_findings(x2, rest);
            assert(splice_findings(x, fs) == sp + rep + tail);
            assert(sp + y2 =~= sp + rep + tail + y);
            valid_utf8_concat(sp, rep);
            valid_utf8_concat(sp + rep, tail);
        }
    }
}

/// Two positions holding the same element count twice in the multiset.
proof fn lemma_count_two_positions<A>(s: Seq<A>, i: int, j: int)
    requires
        0 <= i < j < s.len(),
        s[i] == s[j],
    ensures
        s.to_multiset().count(s[i]) >= 2,
    decreases s.len(),
{
    broadcast use vstd::seq_lib::to_multiset_build, vstd::seq_lib::to_multiset_contains,
        vstd::multiset::group_multiset_axioms;

    let dl = s.drop_last();
    assert(dl.push(s.last()) =~= s);
    if j == s.len() - 1 {
        assert(dl[i] == s[i]);
        assert(dl.contains(s[i]));
    } else {
        assert(dl[i] == s[i] && dl[j] == s[j]);
        lemma_count_two_positions(dl, i, j);
    }
}

/// An element counted twice stands at two positions.
proof fn lemma_count_ge_two<A>(s: Seq<A>, x: A)
    requires
        s.to_multiset().count(x) >= 2,
    ensures
        exists|p: int, q: int| 0 <= p < q < s.len() && s[p] == x && s[q] == x,
    decreases s.len(),
{
    broadcast use vstd::seq_lib::to_multiset_build, vstd::seq_lib::to_multiset_contains,
        vstd::multiset::group_multiset_axioms;

    if s.len() == 0 {
        assert(s.to_multiset() =~= vstd::multiset::Multiset::<A>::empty());
    } else {
        let dl = s.drop_last();
        assert(dl.push(s.last()) =~= s);
        if s.last() == x {
            assert(dl.to_multiset().count(x) >= 1);
            assert(dl.contains(x));
            let p = choose|p: int| 0 <= p < dl.len() && dl[p] == x;
            assert(s[p] == x && s[s.len() - 1] == x);
        } else {
            lemma_count_ge_two(dl, x);
            let (p, q) = choose|p: int, q: int| 0 <= p < q < dl.len() && dl[p] == x && dl[q] == x;
            assert(s[p] == x && s[q] == x);
        }
    }
}

/// What a law on disjoint redacting findings asks of them: each points into
/// the text, and no two overlap (an empty one may stand at the edge of
/// another, not strictly inside it).
pub open spec fn disjoint_redacting_findings(text: Seq<char>, fs: Seq<ScanResultView>) -> bool {
    &&& forall|i: int|
        0 <= i < fs.len() && redacting_action(#[trigger] fs[i].action) ==> finding_in_text(fs[i], text)
    &&& forall|i: int, j: int|
        0 <= i < fs.len() && 0 <= j < fs.len() && i != j && redacting_action(#[trigger] fs[i].action)
            && redacting_action(#[trigger] fs[j].action) ==> findings_disjoint(fs[i], fs[j])
}

/// `a` inserts text at the offset where the non-empty redacting finding `b`
/// starts: `a` is empty, redacts, and has a non-empty replacement.
pub open spec fn inserts_at_start_of(a: ScanResultView, b: ScanResultView) -> bool {
    &&& spliced(a)
    &&& a.start_index == a.end_index
    &&& redacting_action(b.action)
    &&& b.start_index < b.end_index
    &&& a.start_index == b.start_index
}

/// No finding that inserts text is listed before a non-empty redacting
/// finding that starts at the same offset.
pub open spec fn no_insertion_before_span(fs: Seq<ScanResultView>) -> bool {
    forall|p: int, q: int| 0 <= p < q < fs.len() ==> !inserts_at_start_of(#[trigger] fs[p], #[trigger] fs[q])
}

proof fn lemma_insert_keeps_no_insertion(sorted: Seq<ScanResultView>, f: ScanResultView)
    requires
        sorted_by_start_desc(sorted),
        no_insertion_before_span(sorted),
        forall|i: int| 0 <= i < sorted.len() ==> !inserts_at_start_of(f, #[trigger] sorted[i]),
    ensures
        no_insertion_before_span(insert_by_start(sorted, f)),
    decreases sorted.len(),
{
    let r = insert_by_start(sorted, f);
    if sorted.len() == 0 {
    } else if sorted[0].start_index <= f.start_index {
        assert forall|p: int, q: int| 0 <= p < q < r.len() implies !inserts_at_start_of(
            #[trigger] r[p],
            #[trigger] r[q],
        ) by {
            assert(r[q] == sorted[q - 1]);
            if p > 0 {
                assert(r[p] == sorted[p - 1]);
            }
        }
    } else {
        let tail = sorted.drop_first();
        assert forall|i: int, j: int| 0 <= i < j < tail.len() implies tail[i].start_index
            >= tail[j].start_index by {
            assert(tail[i] == sorted[i + 1] && tail[j] == sorted[j + 1]);
        }
        assert forall|p: int, q: int| 0 <= p < q < tail.len() implies !inserts_at_start_of(
            #[trigger] tail[p],
            #[trigger] tail[q],
        ) by {
            assert(tail[p] == sorted[p + 1] && tail[q] == sorted[q + 1]);
        }
        assert forall|i: int| 0 <= i < tail.len() implies !inserts_at_start_of(f, #[trigger] tail[i]) by {
            assert(tail[i] == sorted[i + 1]);
        }
        lemma_insert_keeps_no_insertion(tail, f);
        lemma_insert_by_start_sorted(tail, f);
        let rt = insert_by_start(tail, f);
        assert(r =~= seq![sorted[0]] + rt);
        assert forall|p: int, q: int| 0 <= p < q < r.len() implies !inserts_at_start_of(
            #[trigger] r[p],
            #[trigger] r[q],
        ) by {
            assert(r[q] == rt[q - 1]);
            if p > 0 {
                assert(r[p] == rt[p - 1]);
            } else {
                assert(r[0] == sorted[0]);
                if rt[q - 1] != f {
                    assert(tail.contains(rt[q - 1]));
                    let m = choose|m: int| 0 <= m < tail.len() && tail[m] == rt[q - 1];
                    assert(sorted[m + 1] == tail[m]);
                }
            }
        }
    }
}

/// Sorting keeps every finding that inserts text after the non-empty
/// findings that start where it does and are listed after it.
proof fn lemma_sort_keeps_no_insertion(fs: Seq<ScanResultView>)
    requires
        no_insertion_before_span(fs),
    ensures
        no_insertion_before_span(sort_by_start_desc(fs)),
    decreases fs.len(),
{
    if fs.len() > 0 {
        let rest = fs.drop_first();
        assert forall|p: int, q: int| 0 <= p < q < rest.len() implies !inserts_at_start_of(
            #[trigger] rest[p],
            #[trigger] rest[q],
        ) by {
            assert(rest[p] == fs[p + 1] && rest[q] == fs[q + 1]);
        }
        lemma_sort_keeps_no_insertion(rest);
        lemma_sort_by_start_desc(rest);
        lemma_sorted_elements(rest);
        let sorted = sort_by_start_desc(rest);
        assert forall|i: int| 0 <= i < sorted.len() implies !inserts_at_start_of(fs[0], #[trigger] sorted[i]) by {
            assert(rest.contains(sorted[i]));
            let m = choose|m: int| 0 <= m < rest.len() && rest[m] == sorted[i];
            assert(fs[m + 1] == rest[m]);
        }
        lemma_insert_keeps_no_insertion(sorted, fs[0]);
    }
}

/// Sorted, disjoint redacting findings are spliceable into the text.
proof fn lemma_sorted_spliceable(text: Seq<char>, fs: Seq<ScanResultView>)
    requires
        disjoint_redacting_findings(text, fs),
        no_insertion_before_span(fs),
    ensures
        spliceable(encode_utf8(text), sort_by_start_desc(fs)),
        forall|i: int|
            0 <= i < sort_by_start_desc(fs).len() && redacting_action(#[trigger] sort_by_start_desc(fs)[i].action)
                ==> finding_in_text(sort_by_start_desc(fs)[i], text),
{
    broadcast use vstd::multiset::group_multiset_axioms, vstd::seq_lib::to_multiset_contains;

    let tb = encode_utf8(text);
    let sorted = sort_by_start_desc(fs);
    lemma_sort_by_start_desc(fs);
    lemma_sorted_elements(fs);
    lemma_sort_keeps_no_insertion(fs);
    assert forall|i: int|
        0 <= i < sorted.len() && redacting_action(#[trigger] sorted[i].action) implies finding_in_text(
        sorted[i],
        text,
    ) by {
        assert(fs.contains(sorted[i]));
        let p = choose|p: int| 0 <= p < fs.len() && fs[p] == sorted[i];
        assert(redacting_action(fs[p].action));
    }
    assert forall|i: int, j: int|
        0 <= i < j < sorted.len() && spliced(#[trigger] sorted[i]) && redacting_action(
            #[trigger] sorted[j].action,
        ) implies sorted[j].end_index <= sorted[i].start_index by {
        let x = sorted[i];
        let y = sorted[j];
        assert(x.start_index <= x.end_index) by {
            assert(fs.contains(x));
            let p = choose|p: int| 0 <= p < fs.len() && fs[p] == x;
            assert(redacting_action(fs[p].action));
        }
        assert(y.start_index <= y.end_index) by {
            assert(fs.contains(y));
            let q = choose|q: int| 0 <= q < fs.len() && fs[q] == y;
            assert(redacting_action(fs[q].action));
        }
        assert(x.start_index >= y.start_index);
        assert(!inserts_at_start_of(sorted[i], sorted[j]));
        if x == y {
            lemma_count_two_positions(sorted, i, j);
            lemma_count_ge_two(fs, x);
            let (p, q) = choose|p: int, q: int| 0 <= p < q < fs.len() && fs[p] == x && fs[q] == x;
            assert(findings_disjoint(fs[p], fs[q]));
        } else {
            assert(fs.contains(x));
            assert(fs.contains(y));
            let p = choose|p: int| 0 <= p < fs.len() && fs[p] == x;
            let q = choose|q: int| 0 <= q < fs.len() && fs[q] == y;
            assert(redacting_action(fs[p].action) && redacting_action(fs[q].action));
            assert(findings_disjoint(fs[p], fs[q]));
        }
    }
}

/// Redacting findings that point into the text and do not overlap, where no
/// empty finding that inserts text is listed before a non-empty one starting
/// at its offset: the redaction succeeds, and it is the text with each such
/// finding's span replaced by its replacement at its own offsets (an empty
/// finding's replacement inserted there), every other byte kept in place
/// (findings that do not redact play no part).
pub proof fn lemma_disjoint_redaction_splices(text: Seq<char>, fs: Seq<ScanResultView>)
    requires
        disjoint_redacting_findings(text, fs),
        no_insertion_before_span(fs),
    ensures
        redaction(text, fs) is Some,
        redaction(text, fs) == Some(decode_utf8(splice_findings(encode_utf8(text), sort_by_start_desc(fs)))),
        valid_utf8(splice_findings(encode_utf8(text), sort_by_start_desc(fs))),
{
    let tb = encode_utf8(text);
    lemma_sorted_spliceable(text, fs);
    lemma_apply_splice(tb, Seq::empty(), sort_by_start_desc(fs));
    assert(tb + Seq::<u8>::empty() =~= tb);
    assert(splice_findings(tb, sort_by_start_desc(fs)) + Seq::<u8>::empty() =~= splice_findings(
        tb,
        sort_by_start_desc(fs),
    ));
}

/// Whether byte `i` lies in the span of a redacting finding.
pub open spec fn in_redacted_span(fs: Seq<ScanResultView>, i: int) -> bool {
    exists|k: int|
        0 <= k < fs.len() && redacting_action(#[trigger] fs[k].action) && fs[k].start_index <= i
            < fs[k].end_index
}

/// Redacting spans within `n` bytes, each ending before an earlier-listed
/// one that changes the bytes starts.
pub open spec fn spans_ordered(n: int, fs: Seq<ScanResultView>) -> bool {
    &&& forall|i: int|
        0 <= i < fs.len() && redacting_action(#[trigger] fs[i].action) ==> fs[i].start_index
            <= fs[i].end_index <= n
    &&& forall|i: int, j: int|
        0 <= i < j < fs.len() && spliced(#[trigger] fs[i]) && redacting_action(#[trigger] fs[j].action)
            ==> fs[j].end_index <= fs[i].start_index
}

proof fn lemma_splice_masks(x: Seq<u8>, fs: Seq<ScanResultView>)
    requires
        spans_ordered(x.len() as int, fs),
        forall|i: int|
            0 <= i < fs.len() && redacting_action(#[trigger] fs[i].action) ==> encode_utf8(
                replacement_text(fs[i]),
            ) == Seq::new((fs[i].end_index - fs[i].start_index) as nat, |_k: int| 42u8),
    ensures
        splice_findings(x, fs).len() == x.len(),
        forall|i: int|
            0 <= i < x.len() ==> #[trigger] splice_findings(x, fs)[i] == if in_redacted_span(fs, i) {
                42u8
            } else {
                x[i]
            },
    decreases fs.len(),
{
    if fs.len() > 0 {
        let f = fs[0];
        let rest = fs.drop_first();
        let s = f.start_index as int;
        let e = f.end_index as int;
        let n = if spliced(f) { s } else { x.len() as int };
        let xp = if spliced(f) { x.subrange(0, s) } else { x };
        assert(spans_ordered(n, rest)) by {
            assert forall|i: int| 0 <= i < rest.len() && redacting_action(#[trigger] rest[i].action) implies rest[i].start_index
                <= rest[i].end_index <= n by {
                assert(rest[i] == fs[i + 1]);
                if spliced(f) {
                    assert(spliced(fs[0]));
                }
            }
            assert forall|i: int, j: int|
                0 <= i < j < rest.len() && spliced(#[trigger] rest[i]) && redacting_action(
                    #[trigger] rest[j].action,
                ) implies rest[j].end_index <= rest[i].start_index by {
                assert(rest[i] == fs[i + 1] && rest[j] == fs[j + 1]);
            }
        }
        assert forall|i: int|
            0 <= i < rest.len() && redacting_action(#[trigger] rest[i].action) implies encode_utf8(
            replacement_text(rest[i]),
        ) == Seq::new((rest[i].end_index - rest[i].start_index) as nat, |_k: int| 42u8) by {
            assert(rest[i] == fs[i + 1]);
        }
        lemma_splice_masks(xp, rest);
        assert forall|i: int| 0 <= i < x.len() implies #[trigger] splice_findings(x, fs)[i] == if in_redacted_span(fs, i) {
            42u8
        } else {
            x[i]
        } by {
            if in_redacted_span(rest, i) {
                let k = choose|k: int|
                    0 <= k < rest.len() && redacting_action(#[trigger] rest[k].action) && rest[k].start_index
                        <= i < rest[k].end_index;
                assert(fs[k + 1] == rest[k]);
            }
            if in_redacted_span(fs, i) {
                let k = choose|k: int|
                    0 <= k < fs.len() && redacting_action(#[trigger] fs[k].action) && fs[k].start_index
                        <= i < fs[k].end_index;
                if k > 0 {
                    assert(rest[k - 1] == fs[k]);
                }
            }
            if spliced(f) {
                assert(redacting_action(fs[0].action));
                assert(spliced(fs[0]));
                if s <= i < e {
                    assert(in_redacted_span(fs, i));
                } else if i >= e {
                    assert(!in_redacted_span(rest, i)) by {
                        if in_redacted_span(rest, i) {
                            let k = choose|k: int|
                                0 <= k < rest.len() && redacting_action(#[trigger] rest[k].action)
                                    && rest[k].start_index <= i < rest[k].end_index;
                            assert(rest[k] == fs[k + 1]);
                        }
                    }
                }
            }
        }
    }
}

/// Masking byte by byte: where the redacting findings point into the text,
/// do not overlap (empty ones included), and have no `replace` text, the redaction
/// succeeds, has the text's byte length, and holds `*` at every byte inside
/// a redacting finding's span and the text's byte everywhere else.
pub proof fn lemma_masking_by_byte(text: Seq<char>, fs: Seq<ScanResultView>)
    requires
        disjoint_redacting_findings(text, fs),
        forall|i: int| 0 <= i < fs.len() && redacting_action(#[trigger] fs[i].action) ==> fs[i].replace is None,
    ensures
        redaction(text, fs) is Some,
        encode_utf8(redaction(text, fs)->0).len() == encode_utf8(text).len(),
        forall|i: int|
            0 <= i < encode_utf8(text).len() ==> #[trigger] encode_utf8(redaction(text, fs)->0)[i] == if in_redacted_span(
                fs,
                i,
            ) {
                42u8
            } else {
                encode_utf8(text)[i]
            },
{
    broadcast use vstd::utf8::decode_utf8_encode_utf8, vstd::seq_lib::to_multiset_contains;

    let tb = encode_utf8(text);
    let sorted = sort_by_start_desc(fs);
    assert(no_insertion_before_span(fs)) by {
        assert forall|p: int, q: int| 0 <= p < q < fs.len() implies !inserts_at_start_of(
            #[trigger] fs[p],
            #[trigger] fs[q],
        ) by {
            let f = fs[p];
            if redacting_action(f.action) && f.start_index == f.end_index {
                lemma_valid_utf8_between_boundaries(tb, f.start_index as int, f.end_index as int);
                assert(encode_utf8(f.match_content) == tb.subrange(f.start_index as int, f.end_index as int));
                lemma_asterisks_bytes(encode_utf8(f.match_content).len());
                assert(encode_utf8(replacement_text(f)).len() == 0);
            }
        }
    }
    lemma_disjoint_redaction_splices(text, fs);
    lemma_sorted_spliceable(text, fs);
    lemma_sorted_elements(fs);
    lemma_sort_by_start_desc(fs);
    assert(spans_ordered(tb.len() as int, sorted)) by {
        assert forall|i: int| 0 <= i < sorted.len() && redacting_action(#[trigger] sorted[i].action) implies sorted[i].start_index
            <= sorted[i].end_index <= tb.len() by {
            lemma_valid_utf8_between_boundaries(tb, sorted[i].start_index as int, sorted[i].end_index as int);
        }
    }
    assert forall|i: int| 0 <= i < sorted.len() && redacting_action(#[trigger] sorted[i].action) implies encode_utf8(
        replacement_text(sorted[i]),
    ) == Seq::new((sorted[i].end_index - sorted[i].start_index) as nat, |_k: int| 42u8) by {
        let f = sorted[i];
        assert(fs.contains(f));
        let p = choose|p: int| 0 <= p < fs.len() && fs[p] == f;
        assert(redacting_action(fs[p].action));
        lemma_valid_utf8_between_boundaries(tb, f.start_index as int, f.end_index as int);
        assert(encode_utf8(f.match_content) == tb.subrange(f.start_index as int, f.end_index as int));
        lemma_asterisks_bytes(encode_utf8(f.match_content).len());
    }
    lemma_splice_masks(tb, sorted);
    let r = splice_findings(tb, sorted);
    assert forall|i: int| 0 <= i < tb.len() implies in_redacted_span(sorted, i) == in_redacted_span(fs, i) by {
        if in_redacted_span(sorted, i) {
            let k = choose|k: int|
                0 <= k < sorted.len() && redacting_action(#[trigger] sorted[k].action) && sorted[k].start_index
                    <= i < sorted[k].end_index;
            assert(fs.contains(sorted[k]));
            let p = choose|p: int| 0 <= p < fs.len() && fs[p] == sorted[k];
            assert(redacting_action(fs[p].action));
        }
        if in_redacted_span(fs, i) {
            let k = choose|k: int|
                0 <= k < fs.len() && redacting_action(#[trigger] fs[k].action) && fs[k].start_index
                    <= i < fs[k].end_index;
            assert(sorted.to_multiset().count(fs[k]) > 0) by {
                assert(fs.contains(fs[k]));
            }
            assert(sorted.contains(fs[k]));
            let q = choose|q: int| 0 <= q < sorted.len() && sorted[q] == fs[k];
            assert(redacting_action(sorted[q].action));
        }
    }
}

/* ---------- exec helpers ---------- */

/// Whether an action asks for redaction.
fn is_redacting(action: &Option<String>) -> (b: bool)
    ensures
        b == redacting_action(opt_view(*action)),
{
    match action {
        Some(a) => str_eq(a.as_str(), "redact") || str_eq(a.as_str(), "block"),
        None => false,
    }
}

/// Appends `src[from..to]` to `out`.
fn push_bytes(out: &mut Vec<u8>, src: &[u8], from: usize, to: usize)
    requires
        from <= to <= src@.len(),
    ensures
        final(out)@ == old(out)@ + src@.subrange(from as int, to as int),
{
    let ghost start = out@;
    let mut i = from;
    while i < to
        invariant
            from <= i <= to,
            to <= src@.len(),
            out@ == start + src@.subrange(from as int, i as int),
        decreases to - i,
    {
        out.push(src[i]);
        i = i + 1;
        assert(out@ =~= start + src@.subrange(from as int, i as int));
    }
}

/// One redaction step on `cur`; `false` (with `cur` unchanged) where it fails.
fn apply_finding_exec(cur: &mut Vec<u8>, f: &ScanResult) -> (ok: bool)
    requires
        valid_utf8(old(cur)@),
    ensures
        ok == apply_finding(old(cur)@, f@) is Some,
        ok ==> apply_finding(old(cur)@, f@) == Some(final(cur)@),
        !ok ==> final(cur)@ == old(cur)@,
{
    if !is_redacting(&f.action) {
        return true;
    }
    let s = f.start_index;
    let e = f.end_index;
    if !(s <= e && byte_is_char_boundary(cur.as_slice(), s) && byte_is_char_boundary(
        cur.as_slice(),
        e,
    )) {
        return false;
    }
    proof {
        lemma_valid_utf8_between_boundaries(cur@, s as int, e as int);
    }
    let mut out: Vec<u8> = Vec::new();
    push_bytes(&mut out, cur.as_slice(), 0, s);
    match &f.replace {
        Some(r) => {
            let rb = r.as_str().as_bytes();
            push_bytes(&mut out, rb, 0, rb.len());
            assert(rb@.subrange(0, rb@.len() as int) =~= rb@);
        },
        None => {
            let n = f.match_content.as_str().as_bytes().len();
            let ghost before = out@;
            let mut k: usize = 0;
            while k < n
                invariant
                    k <= n,
                    out@ == before + Seq::new(k as nat, |_i: int| 42u8),
                decreases n - k,
            {
                out.push(42u8);
                k = k + 1;
                assert(out@ =~= before + Seq::new(k as nat, |_i: int| 42u8));
            }
            proof {
                lemma_asterisks_bytes(n as nat);
            }
        },
    }
    let len = cur.len();
    push_bytes(&mut out, cur.as_slice(), e, len);
    *cur = out;
    true
}

/// The findings applied in order to the text's bytes.
fn apply_findings_exec(text: &str, fs: &Vec<ScanResult>) -> (r: Option<Vec<u8>>)
    ensures
        r is Some <==> apply_findings(encode_utf8(text@), findings_view(fs@)) is Some,
        r matches Some(b) ==> apply_findings(encode_utf8(text@), findings_view(fs@)) == Some(b@),
{
    let ghost tb = encode_utf8(text@);
    let ghost all = findings_view(fs@);
    let tbytes = text.as_bytes();
    let mut cur: Vec<u8> = Vec::new();
    push_bytes(&mut cur, tbytes, 0, tbytes.len());
    assert(cur@ =~= tb);
    assert(all.take(0) =~= Seq::<ScanResultView>::empty());
    let mut i: usize = 0;
    while i < fs.len()
        invariant
            i <= fs@.len(),
            all == findings_view(fs@),
            tb == encode_utf8(text@),
            valid_utf8(cur@),
            apply_findings(tb, all.take(i as int)) == Some(cur@),
        decreases fs@.len() - i,
    {
        assert(all.take(i + 1).drop_last() =~= all.take(i as int));
        let ok = apply_finding_exec(&mut cur, &fs[i]);
        if !ok {
            proof {
                if apply_findings(tb, all) is Some {
                    lemma_apply_prefix(tb, all, i + 1);
                }
            }
            return None;
        }
        proof {
            lemma_apply_findings_valid(tb, all.take(i + 1));
        }
        i = i + 1;
    }
    assert(all.take(fs@.len() as int) =~= all);
    Some(cur)
}

/// The findings sorted by descending start offset, stably.
fn sort_findings(findings: Vec<ScanResult>) -> (sorted: Vec<ScanResult>)
    ensures
        findings_view(sorted@) == sort_by_start_desc(findings_view(findings@)),
{
    let ghost all = findings_view(findings@);
    let mut rest = findings;
    let mut sorted: Vec<ScanResult> = Vec::new();
    assert(all.take(all.len() as int) =~= all);
    assert(all.skip(all.len() as int) =~= Seq::<ScanResultView>::empty());
    assert(findings_view(sorted@) =~= Seq::<ScanResultView>::empty());
    while rest.len() > 0
        invariant
            rest@.len() <= all.len(),
            findings_view(rest@) == all.take(rest@.len() as int),
            findings_view(sorted@) == sort_by_start_desc(all.skip(rest@.len() as int)),
        decreases rest@.len(),
    {
        let ghost old_rest = rest@;
        let f = rest.pop().unwrap();
        let k = rest.len();
        assert(f@ == all[k as int]) by {
            assert(findings_view(old_rest)[k as int] == f@);
        }
        assert(findings_view(rest@) =~= all.take(k as int)) by {
            assert(rest@ =~= old_rest.drop_last());
        }
        let mut p: usize = 0;
        while p < sorted.len() && sorted[p].start_index > f.start_index
            invariant
                p <= sorted@.len(),
                forall|q: int| 0 <= q < p ==> sorted@[q].start_index > f.start_index,
            decreases sorted@.len() - p,
        {
            p = p + 1;
        }
        let ghost before = findings_view(sorted@);
        proof {
            lemma_insert_by_start_at(before, f@, p as int);
            assert(all.skip(k as int).drop_first() =~= all.skip(k + 1));
            assert(all.skip(k as int)[0] == all[k as int]);
        }
        sorted.insert(p, f);
        assert(findings_view(sorted@) =~= before.insert(p as int, all[k as int]));
    }
    assert(all.skip(0) =~= all);
    sorted
}

/* ---------- the scanner ---------- */

/// Scans texts with a list of privacy rules.
pub struct PIIScanner {
    rules: Vec<PrivacyRule>,
}

impl PIIScanner {
    /// The scanner's rules.
    pub closed spec fn rule_views(&self) -> Seq<PrivacyRuleView> {
        rules_view(self.rules@)
    }

    /// A scanner for the given rules.
    pub fn new(rules: Vec<PrivacyRule>) -> (s: Self)
        ensures
            s.rule_views() == rules_view(rules@),
    {
        PIIScanner { rules }
    }

    /// Appends the findings of a pattern rule.
    fn push_pattern_findings(
        rule: &PrivacyRule,
        text: &str,
        compiled: &CompiledPattern,
        results: &mut Vec<ScanResult>,
    )
        requires
            compiled.pattern@ == rule@.value,
            forall|i: int| 0 <= i < old(results)@.len() ==> finding_in_text(#[trigger] old(results)@[i]@, text@),
        ensures
            findings_view(final(results)@) == findings_view(old(results)@) + pattern_findings(
                rule@,
                text@,
                as_group_zero(regex_match_spans(rule@.value, text@)),
            ),
            forall|i: int| 0 <= i < final(results)@.len() ==> finding_in_text(#[trigger] final(results)@[i]@, text@),
    {
        let ghost start = findings_view(results@);
        let spans = capture_spans(compiled, text);
        let tb = text.as_bytes();
        let ghost all_spans = spans@;
        assert(all_spans.take(0) =~= Seq::<Option<(usize, usize)>>::empty());
        assert(start + Seq::<ScanResultView>::empty() =~= start);
        let mut j: usize = 0;
        while j < spans.len()
            invariant
                j <= spans@.len(),
                all_spans == spans@,
                tb@ == encode_utf8(text@),
                spans@ == as_group_zero(regex_match_spans(rule@.value, text@)),
                forall|i: int|
                    0 <= i < spans@.len() ==> (#[trigger] spans@[i] matches Some(sp) ==> sp.0 <= sp.1
                        && is_char_boundary(encode_utf8(text@), sp.0 as int) && is_char_boundary(
                        encode_utf8(text@),
                        sp.1 as int,
                    )),
                findings_view(results@) == start + pattern_findings(rule@, text@, all_spans.take(j as int)),
                forall|i: int| 0 <= i < results@.len() ==> finding_in_text(#[trigger] results@[i]@, text@),
            decreases spans@.len() - j,
        {
            assert(all_spans.take(j + 1).drop_last() =~= all_spans.take(j as int));
            match spans[j] {
                Some(sp) => {
                    let (s, e) = sp;
                    proof {
                        lemma_valid_utf8_between_boundaries(tb@, s as int, e as int);
                    }
                    let piece = &tb[s..e];
                    match utf8_str(piece) {
                        Some(content) => {
                            let ghost before = results@;
                            results.push(
                                ScanResult {
                                    rule_name: rule.name.clone(),
                                    match_content: content.to_owned(),
                                    start_index: s,
                                    end_index: e,
                                    action: copy_opt_string(&rule.action),
                                    replace: copy_opt_string(&rule.replace),
                                },
                            );
                            assert(findings_view(results@) =~= findings_view(before).push(
                                span_finding(rule@, text@, s, e),
                            ));
                        },
                        None => {
                            assert(false);
                        },
                    }
                },
                None => {},
            }
            j = j + 1;
        }
        assert(all_spans.take(spans@.len() as int) =~= all_spans);
    }

    /// Appends the finding of an entity rule, if its keyword occurs.
    fn push_entity_finding(rule: &PrivacyRule, text: &str, results: &mut Vec<ScanResult>)
        requires
            forall|i: int| 0 <= i < old(results)@.len() ==> finding_in_text(#[trigger] old(results)@[i]@, text@),
        ensures
            findings_view(final(results)@) == findings_view(old(results)@) + entity_findings(rule@, text@),
            forall|i: int| 0 <= i < final(results)@.len() ==> finding_in_text(#[trigger] final(results)@[i]@, text@),
    {
        let tb = text.as_bytes();
        let vb = rule.value.as_str().as_bytes();
        proof {
            lemma_find_from_first(tb@, vb@, 0);
        }
        match find_bytes(tb, vb) {
            Some(k) => {
                let ghost before = results@;
                let tl = tb.len();
                assert(occurs_at(tb@, vb@, k as int));
                assert(k + vb@.len() <= tl);
                let end = k + vb.len();
                proof {
                    if vb@.len() == 0 {
                        assert(occurs_at(tb@, vb@, 0)) by {
                            assert(tb@.subrange(0, 0) =~= vb@);
                        }
                    }
                    lemma_occurrence_boundaries(tb@, vb@, k as int);
                }
                results.push(
                    ScanResult {
                        rule_name: rule.name.clone(),
                        match_content: rule.value.clone(),
                        start_index: k,
                        end_index: end,
                        action: copy_opt_string(&rule.action),
                        replace: copy_opt_string(&rule.replace),
                    },
                );
                assert(findings_view(results@) =~= findings_view(before) + entity_findings(rule@, text@));
            },
            None => {
                assert(findings_view(results@) =~= findings_view(results@) + entity_findings(rule@, text@));
            },
        }
    }

    /// Everything the rules find in `text`: rule by rule in order, all regex
    /// matches of each `"pattern"` rule whose pattern compiles (rules whose
    /// pattern does not compile find nothing), the first occurrence of the
    /// keyword of each `"entity"` rule. Every finding points into the text.
    pub fn scan(&self, text: &str) -> (results: Vec<ScanResult>)
        ensures
            findings_view(results@) == scan_rules(self.rule_views(), text@),
            forall|i: int| 0 <= i < results@.len() ==> finding_in_text(#[trigger] results@[i]@, text@),
    {
        let ghost rv = self.rule_views();
        let mut results: Vec<ScanResult> = Vec::new();
        assert(rv.take(0) =~= Seq::<PrivacyRuleView>::empty());
        assert(findings_view(results@) =~= Seq::<ScanResultView>::empty());
        let mut i: usize = 0;
        while i < self.rules.len()
            invariant
                i <= self.rules@.len(),
                rv == rules_view(self.rules@),
                findings_view(results@) == scan_rules(rv.take(i as int), text@),
                forall|k: int| 0 <= k < results@.len() ==> finding_in_text(#[trigger] results@[k]@, text@),
            decreases self.rules@.len() - i,
        {
            let rule = &self.rules[i];
            let ghost before = findings_view(results@);
            if str_eq(rule.rule_type.as_str(), "pattern") {
                match compile_pattern(rule.value.as_str()) {
                    Ok(compiled) => Self::push_pattern_findings(rule, text, &compiled, &mut results),
                    Err(_) => {
                        assert(findings_view(results@) =~= before + rule_findings(rule@, text@));
                    },
                }
            } else if str_eq(rule.rule_type.as_str(), "entity") {
                Self::push_entity_finding(rule, text, &mut results);
            } else {
                assert(findings_view(results@) =~= before + rule_findings(rule@, text@));
            }
            assert(rv.take(i + 1).drop_last() =~= rv.take(i as int));
            assert(rv.take(i + 1).last() == rule@);
            i = i + 1;
        }
        assert(rv.take(self.rules@.len() as int) =~= rv);
        results
    }

    /// The text with the given findings redacted (see `redaction`): `None`
    /// where a redacting finding does not fall on character boundaries of
    /// the text as it stands when its turn comes.
    pub fn redact_findings(text: &str, findings: Vec<ScanResult>) -> (r: Option<String>)
        ensures
            opt_view(r) == redaction(text@, findings_view(findings@)),
    {
        let sorted = sort_findings(findings);
        match apply_findings_exec(text, &sorted) {
            Some(bytes) => {
                proof {
                    lemma_apply_findings_valid(encode_utf8(text@), findings_view(sorted@));
                }
                match utf8_str(bytes.as_slice()) {
                    Some(s) => Some(s.to_owned()),
                    None => {
                        assert(false);
                        None
                    },
                }
            },
            None => None,
        }
    }

    /// The text with everything the rules find in it redacted: the findings
    /// whose action is `"redact"` or `"block"` are replaced, from the last
    /// start offset to the first, by the rule's `replace` text or by as many
    /// asterisks as the match has bytes.
    pub fn redact(&self, text: &str) -> (r: String)
        requires
            redaction(text@, scan_rules(self.rule_views(), text@)) is Some,
        ensures
            r@ == redaction(text@, scan_rules(self.rule_views(), text@))->0,
    {
        let findings = self.scan(text);
        match Self::redact_findings(text, findings) {
            Some(r) => r,
            None => {
                assert(false);
                String::new()
            },
        }
    }

    /// Whether every redacting finding of the rules in `text` can be applied.
    pub fn redacts_cleanly(&self, text: &str) -> (b: bool)
        ensures
            b == redaction(text@, scan_rules(self.rule_views(), text@)) is Some,
    {
        let findings = self.scan(text);
        Self::redact_findings(text, findings).is_some()
    }

    /// `redact`, where it can be applied; `None` where it cannot.
    pub fn try_redact(&self, text: &str) -> (r: Option<String>)
        ensures
            opt_view(r) == redaction(text@, scan_rules(self.rule_views(), text@)),
    {
        if self.redacts_cleanly(text) {
            Some(self.redact(text))
        } else {
            None
        }
    }

    /// Whether a request body is read and scanned: all but one whose size is
    /// known to be zero.
    pub fn body_needs_scan(exact_size: Option<u64>) -> (b: bool)
        ensures
            b <==> exact_size != Some(0u64),
    {
        match exact_size {
            Some(n) => n != 0,
            None => true,
        }
    }

    /// What to do with a request body: a body that is not UTF-8 is kept; a
    /// text body is redacted, and replaced only where redaction changed it.
    pub fn redact_body(&self, body: &[u8]) -> (r: BodyRedaction)
        ensures
            !valid_utf8(body@) ==> r is Unchanged,
            valid_utf8(body@) ==> ({
                let text = decode_utf8(body@);
                match redaction(text, scan_rules(self.rule_views(), text)) {
                    None => r is Unredactable,
                    Some(red) => if red == text {
                        r is Unchanged
                    } else {
                        r matches BodyRedaction::Redacted { text, content_length } && text@ == red
                            && content_length@ == decimal_text((encode_utf8(red).len() as usize) as nat)
                    },
                }
            }),
    {
        match utf8_str(body) {
            None => BodyRedaction::Unchanged,
            Some(text) => {
                if !self.redacts_cleanly(text) {
                    BodyRedaction::Unredactable
                } else {
                    let redacted = self.redact(text);
                    if str_eq(redacted.as_str(), text) {
                        BodyRedaction::Unchanged
                    } else {
                        let content_length = decimal_header_value(redacted.as_str().len());
                        BodyRedaction::Redacted { text: redacted, content_length }
                    }
                }
            },
        }
    }
}

} // verus!
