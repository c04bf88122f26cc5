//! The credential store: named credential profiles, section-name
//! normalization, the ordering of the profile list, and the rule that decides
//! whether a profile needs the external authentication helper.

use vstd::prelude::*;
use crate::text::{lex_leq_fn, lemma_lex_total_ordering, str_eq, str_leq, str_starts_with, str_trim, trimmed};
use crate::errors::AppError;
use vstd::relations::{sorted_by, total_ordering};
use vstd::seq_lib::lemma_multiset_commutative;
use vstd::string::StringExecFns;

verus! {

broadcast use crate::text::lemma_vec_deep_index;

/// One named credential profile of the store. A profile with a tenant
/// identifier and no custom credential command requires external interactive
/// authentication before use; one with a credential command is
/// self-authenticating.
pub struct AwsCredential {
    pub azure_tenant_id: Option<String>,
    pub credential_process: Option<String>,
}

/// The mathematical content of a credential profile.
pub ghost struct CredentialView {
    pub azure_tenant_id: Option<Seq<char>>,
    pub credential_process: Option<Seq<char>>,
}

impl View for AwsCredential {
    type V = CredentialView;

    open spec fn view(&self) -> CredentialView {
        CredentialView {
            azure_tenant_id: self.azure_tenant_id.deep_view(),
            credential_process: self.credential_process.deep_view(),
        }
    }
}

impl DeepView for AwsCredential {
    type V = CredentialView;

    open spec fn deep_view(&self) -> CredentialView {
        self@
    }
}

/// A profile needs the external authentication helper exactly when it names
/// a tenant and has no custom credential command.
pub open spec fn needs_external_login(c: CredentialView) -> bool {
    c.azure_tenant_id is Some && c.credential_process is None
}

/// The authentication gate of a profile.
pub fn requires_external_login(c: &AwsCredential) -> (b: bool)
    ensures
        b == needs_external_login(c@),
{
    c.azure_tenant_id.is_some() && c.credential_process.is_none()
}

/// The structural tag a raw section name may carry before the bare name.
pub open spec fn section_tag() -> Seq<char> {
    "profile "@
}

/// A raw section name with the structural tag stripped.
pub open spec fn normalized_name(raw: Seq<char>) -> Seq<char> {
    if raw.len() >= section_tag().len() && raw.take(section_tag().len() as int) == section_tag() {
        raw.skip(section_tag().len() as int)
    } else {
        raw
    }
}

/// Strip the structural tag from a raw section name, if it carries one.
pub fn normalize_section_name(raw: &str) -> (r: String)
    ensures
        r@ == normalized_name(raw@),
{
    let tag = "profile ";
    if str_starts_with(raw, tag) {
        let m = tag.unicode_len();
        let n = raw.unicode_len();
        let rest = raw.substring_char(m, n);
        rest.to_owned()
    } else {
        raw.to_owned()
    }
}

/// One entry of the credential store.
pub struct ProfileEntry {
    pub name: String,
    pub cred: AwsCredential,
}

/// The mathematical content of a store entry.
pub ghost struct EntryView {
    pub name: Seq<char>,
    pub cred: CredentialView,
}

impl View for ProfileEntry {
    type V = EntryView;

    open spec fn view(&self) -> EntryView {
        EntryView { name: self.name@, cred: self.cred@ }
    }
}

impl DeepView for ProfileEntry {
    type V = EntryView;

    open spec fn deep_view(&self) -> EntryView {
        self@
    }
}

/// No two entries carry the same name.
pub open spec fn distinct_names(entries: Seq<EntryView>) -> bool {
    forall|i: int, j: int|
        0 <= i < j < entries.len() ==> (#[trigger] entries[i]).name != (#[trigger] entries[j]).name
}

/// The named credential profiles read from the store file, keyed by bare
/// profile name.
pub struct ProfileStore {
    pub entries: Vec<ProfileEntry>,
}

impl View for ProfileStore {
    type V = Seq<EntryView>;

    open spec fn view(&self) -> Seq<EntryView> {
        self.entries.deep_view()
    }
}

/// The entries after writing `cred` under `name`: an existing entry of that
/// name is replaced in place, a new name is appended.
pub open spec fn upserted(entries: Seq<EntryView>, name: Seq<char>, cred: CredentialView) -> Seq<
    EntryView,
> {
    if exists|i: int| 0 <= i < entries.len() && (#[trigger] entries[i]).name == name {
        let i = choose|i: int| 0 <= i < entries.len() && (#[trigger] entries[i]).name == name;
        entries.update(i, EntryView { name, cred })
    } else {
        entries.push(EntryView { name, cred })
    }
}

impl ProfileStore {
    /// Names are unique keys.
    pub open spec fn wf(&self) -> bool {
        distinct_names(self@)
    }

    /// An entry of this name exists.
    pub open spec fn spec_contains(&self, name: Seq<char>) -> bool {
        exists|i: int| 0 <= i < self@.len() && (#[trigger] self@[i]).name == name
    }

    pub fn new() -> (s: ProfileStore)
        ensures
            s@ =~= Seq::<EntryView>::empty(),
            s.wf(),
    {
        ProfileStore { entries: Vec::new() }
    }

    /// Find the profile stored under `name`, the unique entry of that name.
    pub fn lookup(&self, name: &str) -> (r: Option<&AwsCredential>)
        ensures
            match r {
                Some(c) => exists|i: int|
                    0 <= i < self@.len() && (#[trigger] self@[i]).name == name@ && c@
                        == self@[i].cred,
                None => !self.spec_contains(name@),
            },
    {
        let n = self.entries.len();
        let mut i: usize = 0;
        while i < n
            invariant
                n == self.entries@.len(),
                i <= n,
                forall|k: int| 0 <= k < i ==> (#[trigger] self@[k]).name != name@,
            decreases n - i,
        {
            if str_eq(self.entries[i].name.as_str(), name) {
                proof {
                    assert(self@[i as int].name == name@);
                }
                return Some(&self.entries[i].cred);
            }
            i += 1;
        }
        None
    }

    /// Write `cred` under `name`, replacing an entry of the same name
    /// (last wins) and keeping all names distinct.
    pub fn upsert(&mut self, name: String, cred: AwsCredential)
        requires
            old(self).wf(),
        ensures
            final(self).wf(),
            final(self)@ == upserted(old(self)@, name@, cred@),
    {
        let n = self.entries.len();
        let mut i: usize = 0;
        while i < n
            invariant
                self@ == old(self)@,
                distinct_names(self@),
                n == self.entries@.len(),
                i <= n,
                forall|k: int| 0 <= k < i ==> (#[trigger] self@[k]).name != name@,
            decreases n - i,
        {
            if str_eq(self.entries[i].name.as_str(), name.as_str()) {
                proof {
                    assert(self@[i as int].name == name@);
                }
                let ghost before = self@;
                let ghost eb = self.entries;
                self.entries[i] = ProfileEntry { name, cred };
                proof {
                    let target = upserted(before, name@, cred@);
                    let idx = choose|k: int|
                        0 <= k < before.len() && (#[trigger] before[k]).name == name@;
                    assert(idx == i as int);
                    assert(self.entries@ == eb@.update(i as int, ProfileEntry { name, cred }));
                    assert forall|k: int| 0 <= k < self@.len() implies self@[k] == target[k] by {
                        assert(self@[k] == self.entries@[k]@);
                        assert(before[k] == eb@[k]@);
                        if k == i as int {
                            assert(self.entries@[k] == ProfileEntry { name, cred });
                        } else {
                            assert(self.entries@[k] == eb@[k]);
                        }
                    }
                    assert(self@ =~= target);
                }
                return ;
            }
            i += 1;
        }
        let ghost before = self@;
        self.entries.push(ProfileEntry { name, cred });
        proof {
            assert(!(exists|k: int|
                0 <= k < before.len() && (#[trigger] before[k]).name == name@));
            assert(self@ =~= before.push(EntryView { name: name@, cred: cred@ }));
        }
    }

    /// The profile names, in store order.
    pub fn names(&self) -> (r: Vec<String>)
        ensures
            r.deep_view() == self@.map_values(|e: EntryView| e.name),
    {
        let n = self.entries.len();
        let mut r: Vec<String> = Vec::new();
        let mut i: usize = 0;
        while i < n
            invariant
                n == self.entries@.len(),
                i <= n,
                r@.len() == i,
                forall|k: int| 0 <= k < i ==> (#[trigger] r.deep_view()[k]) == self@[k].name,
            decreases n - i,
        {
            let ghost r0 = r;
            r.push(self.entries[i].name.clone());
            proof {
                assert forall|k: int| 0 <= k < i + 1 implies (#[trigger] r.deep_view()[k])
                    == self@[k].name by {
                    assert(r.deep_view()[k] == r@[k]@);
                    if k < i {
                        assert(r@[k] == r0@[k]);
                        assert(r0.deep_view()[k] == r0@[k]@);
                    } else {
                        assert(self@[k] == self.entries@[k]@);
                    }
                }
            }
            i += 1;
        }
        proof {
            assert(r.deep_view() =~= self@.map_values(|e: EntryView| e.name));
        }
        r
    }
}

/// The privileged profile name that is always offered first.
pub open spec fn default_name() -> Seq<char> {
    "default"@
}

/// The names that stay in the sorted tail of the profile list.
pub open spec fn keep_pred() -> spec_fn(Seq<char>) -> bool {
    |n: Seq<char>| n != default_name()
}

proof fn lemma_filter_push(s: Seq<Seq<char>>, pred: spec_fn(Seq<char>) -> bool, x: Seq<char>)
    ensures
        s.push(x).filter(pred) == if pred(x) {
            s.filter(pred).push(x)
        } else {
            s.filter(pred)
        },
{
    reveal(Seq::filter);
    assert(s.push(x).drop_last() =~= s);
    assert(s.push(x).last() == x);
}

proof fn lemma_insert_to_multiset(s: Seq<Seq<char>>, p: int, x: Seq<char>)
    requires
        0 <= p <= s.len(),
    ensures
        s.insert(p, x).to_multiset() =~= s.to_multiset().insert(x),
{
    broadcast use vstd::seq_lib::group_to_multiset_ensures;
    broadcast use vstd::multiset::group_multiset_axioms;

    assert(s.insert(p, x) =~= s.take(p).push(x) + s.skip(p));
    lemma_multiset_commutative(s.take(p).push(x), s.skip(p));
    assert(s =~= s.take(p) + s.skip(p));
    lemma_multiset_commutative(s.take(p), s.skip(p));
    assert(s.take(p).push(x).to_multiset() =~= s.take(p).to_multiset().insert(x));
    assert(s.take(p).to_multiset().insert(x).add(s.skip(p).to_multiset()) =~= s.take(
        p,
    ).to_multiset().add(s.skip(p).to_multiset()).insert(x));
}

/// The candidate list for the profile step: `default` first, then every
/// other name in lexicographic order.
pub fn ordered_profile_names(names: &Vec<String>) -> (r: Vec<String>)
    ensures
        r.deep_view() == seq![default_name()] + names.deep_view().filter(keep_pred()).sort_by(
            lex_leq_fn(),
        ),
{
    let ghost leq = lex_leq_fn();
    let ghost pred = keep_pred();
    proof {
        lemma_lex_total_ordering();
    }
    let n = names.len();
    let mut out: Vec<String> = Vec::new();
    let mut i: usize = 0;
    proof {
        assert(names.deep_view().take(0).filter(pred) =~= Seq::<Seq<char>>::empty()) by {
            reveal(Seq::filter);
            assert(names.deep_view().take(0) =~= Seq::<Seq<char>>::empty());
        }
        assert(out.deep_view() =~= Seq::<Seq<char>>::empty());
        assert(out.deep_view().to_multiset() =~= names.deep_view().take(0).filter(
            pred,
        ).to_multiset());
    }
    while i < n
        invariant
            n == names@.len(),
            i <= n,
            leq == lex_leq_fn(),
            pred == keep_pred(),
            total_ordering(leq),
            sorted_by(out.deep_view(), leq),
            out.deep_view().to_multiset() == names.deep_view().take(i as int).filter(
                pred,
            ).to_multiset(),
        decreases n - i,
    {
        proof {
            assert(names.deep_view()[i as int] == names@[i as int]@);
            assert(names.deep_view().take(i + 1) =~= names.deep_view().take(i as int).push(
                names.deep_view()[i as int],
            ));
            lemma_filter_push(names.deep_view().take(i as int), pred, names.deep_view()[i as int]);
        }
        if str_eq(names[i].as_str(), "default") {
            i += 1;
            continue ;
        }
        let item = names[i].clone();
        let m = out.len();
        let mut p: usize = 0;
        while p < m && !str_leq(item.as_str(), out[p].as_str())
            invariant
                m == out@.len(),
                item@ == names.deep_view()[i as int],
                i < n == names@.len(),
                leq == lex_leq_fn(),
                total_ordering(leq),
                sorted_by(out.deep_view(), leq),
                p <= m,
                forall|k: int| 0 <= k < p ==> leq(#[trigger] out.deep_view()[k], item@),
            decreases m - p,
        {
            proof {
                assert(out.deep_view()[p as int] == out@[p as int]@);
                crate::text::lemma_lex_total(out@[p as int]@, item@);
            }
            p += 1;
        }
        proof {
            if p < m {
                assert(out.deep_view()[p as int] == out@[p as int]@);
            }
        }
        let ghost before = out.deep_view();
        let ghost ob = out;
        out.insert(p, item);
        proof {
            let after = before.insert(p as int, item@);
            before.insert_ensures(p as int, item@);
            assert(out@ == ob@.insert(p as int, item));
            ob@.insert_ensures(p as int, item);
            assert forall|k: int| 0 <= k < out@.len() implies (#[trigger] out.deep_view()[k])
                == after[k] by {
                assert(out.deep_view()[k] == out@[k]@);
                if k < p {
                    assert(out@[k] == ob@[k]);
                    assert(before[k] == ob@[k]@);
                } else if k == p {
                    assert(out@[k] == item);
                } else {
                    assert(out@[k] == ob@[k - 1]);
                    assert(before[k - 1] == ob@[k - 1]@);
                }
            }
            assert(out.deep_view() =~= after);
            assert(sorted_by(after, leq)) by {
                assert forall|x: int, y: int| 0 <= x < y < after.len() implies leq(
                    after[x],
                    after[y],
                ) by {
                    if y < p {
                        assert(after[x] == before[x] && after[y] == before[y]);
                    } else if x < p && y == p {
                        assert(after[x] == before[x] && after[y] == item@);
                    } else if x == p && y > p {
                        assert(after[y] == before[y - 1]);
                        if y - 1 > p {
                            assert(leq(item@, before[p as int]));
                            assert(leq(before[p as int], before[y - 1]));
                        }
                    } else if x < p && y > p {
                        assert(after[x] == before[x] && after[y] == before[y - 1]);
                    } else {
                        assert(after[x] == before[x - 1] && after[y] == before[y - 1]);
                    }
                }
            }
            lemma_insert_to_multiset(before, p as int, item@);
            broadcast use vstd::seq_lib::group_to_multiset_ensures;

            assert(names.deep_view().take(i + 1).filter(pred) =~= names.deep_view().take(
                i as int,
            ).filter(pred).push(item@));
        }
        i += 1;
    }
    proof {
        assert(names.deep_view().take(n as int) =~= names.deep_view());
        let filtered = names.deep_view().filter(pred);
        filtered.lemma_sort_by_ensures(leq);
        vstd::seq_lib::lemma_sorted_unique(out.deep_view(), filtered.sort_by(leq), leq);
        assert(out.deep_view() =~= filtered.sort_by(leq));
    }
    let mut r: Vec<String> = Vec::new();
    r.push(String::from_str("default"));
    proof {
        assert(r.deep_view() =~= seq![default_name()]) by {
            assert(r.deep_view()[0] == r@[0]@);
        }
    }
    let mut j: usize = 0;
    let k = out.len();
    let ghost tail = out.deep_view();
    while j < k
        invariant
            k == out@.len(),
            j <= k,
            tail == out.deep_view(),
            r.deep_view() =~= seq![default_name()] + tail.take(j as int),
        decreases k - j,
    {
        let ghost r0 = r;
        r.push(out[j].clone());
        proof {
            assert(tail[j as int] == out@[j as int]@);
            assert(r0@.len() == 1 + j) by {
                assert(r0.deep_view().len() == 1 + tail.take(j as int).len());
            }
            assert forall|q: int| 0 <= q < r@.len() implies (#[trigger] r.deep_view()[q]) == (
            seq![default_name()] + tail.take(j + 1))[q] by {
                assert(r.deep_view()[q] == r@[q]@);
                let rhs = seq![default_name()] + tail.take(j + 1);
                if q < r0@.len() {
                    assert(r@[q] == r0@[q]);
                    assert(r0.deep_view()[q] == r0@[q]@);
                    assert(r0.deep_view()[q] == (seq![default_name()] + tail.take(j as int))[q]);
                    if q >= 1 {
                        assert((seq![default_name()] + tail.take(j as int))[q] == tail.take(
                            j as int,
                        )[q - 1]);
                        assert(tail.take(j as int)[q - 1] == tail[q - 1]);
                        assert(rhs[q] == tail.take(j + 1)[q - 1]);
                        assert(tail.take(j + 1)[q - 1] == tail[q - 1]);
                    } else {
                        assert(rhs[0] == default_name());
                    }
                } else {
                    assert(q == 1 + j);
                    assert(r@[q] == out@[j as int]);
                    assert(rhs[q] == tail.take(j + 1)[j as int]);
                    assert(tail.take(j + 1)[j as int] == tail[j as int]);
                }
            }
            assert(r@.len() == 1 + j + 1);
            assert(r.deep_view() =~= seq![default_name()] + tail.take(j + 1));
        }
        j += 1;
    }
    proof {
        assert(tail.take(k as int) =~= tail);
    }
    r
}


/// A line that carries nothing: blank, or a comment.
pub open spec fn is_skippable(l: Seq<char>) -> bool {
    trimmed(l).len() == 0 || trimmed(l)[0] == ';' || trimmed(l)[0] == '#'
}

/// A well-formed section header: `[ ... ]` after trimming.
pub open spec fn is_section_line(l: Seq<char>) -> bool {
    trimmed(l).len() >= 2 && trimmed(l)[0] == '[' && trimmed(l).last() == ']'
}

/// The bare profile name of a section header: the bracketed text, trimmed,
/// with the structural tag stripped.
pub open spec fn section_name_of(l: Seq<char>) -> Seq<char> {
    normalized_name(trimmed(trimmed(l).drop_first().drop_last()))
}

/// Whether a trimmed line carries a `key=value` pair.
pub open spec fn has_eq(t: Seq<char>) -> bool {
    exists|i: int| 0 <= i < t.len() && t[i] == '='
}

/// The position of the first `=` of a line.
pub open spec fn first_eq(t: Seq<char>) -> int
    decreases t.len(),
{
    if t.len() == 0 {
        0
    } else if t[0] == '=' {
        0
    } else {
        1 + first_eq(t.drop_first())
    }
}

/// The key of a `key=value` line, trimmed.
pub open spec fn key_of(t: Seq<char>) -> Seq<char> {
    trimmed(t.take(first_eq(t)))
}

/// The value of a `key=value` line, trimmed.
pub open spec fn value_of(t: Seq<char>) -> Seq<char> {
    trimmed(t.skip(first_eq(t) + 1))
}

proof fn lemma_first_eq(t: Seq<char>, i: int)
    requires
        0 <= i < t.len(),
        t[i] == '=',
        forall|k: int| 0 <= k < i ==> t[k] != '=',
    ensures
        first_eq(t) == i,
    decreases i,
{
    if i > 0 {
        lemma_first_eq(t.drop_first(), i - 1);
    }
}

/// The recognized per-profile fields; any other key is ignored.
pub open spec fn with_field(c: CredentialView, key: Seq<char>, value: Seq<char>) -> CredentialView {
    if key == "azure_tenant_id"@ {
        CredentialView { azure_tenant_id: Some(value), credential_process: c.credential_process }
    } else if key == "credential_process"@ {
        CredentialView { azure_tenant_id: c.azure_tenant_id, credential_process: Some(value) }
    } else {
        c
    }
}

/// The entries after a `key=value` line under section `name`: that entry's
/// credential gains the field; an unknown section leaves the entries alone.
pub open spec fn updated_cred(
    entries: Seq<EntryView>,
    name: Seq<char>,
    key: Seq<char>,
    value: Seq<char>,
) -> Seq<EntryView> {
    if exists|i: int| 0 <= i < entries.len() && (#[trigger] entries[i]).name == name {
        let i = choose|i: int| 0 <= i < entries.len() && (#[trigger] entries[i]).name == name;
        entries.update(i, EntryView { name, cred: with_field(entries[i].cred, key, value) })
    } else {
        entries
    }
}

/// The parser's running state: the section currently open, and the entries
/// gathered so far.
pub ghost struct ParseState {
    pub current: Option<Seq<char>>,
    pub entries: Seq<EntryView>,
}

/// One line of the store file applied to the parser state. `None` is a
/// malformed line: an unterminated section header, a key outside any
/// section, or a line that is none of the recognized forms.
pub open spec fn apply_line(st: ParseState, l: Seq<char>) -> Option<ParseState> {
    let t = trimmed(l);
    if is_skippable(l) {
        Some(st)
    } else if t[0] == '[' {
        if is_section_line(l) {
            let name = section_name_of(l);
            Some(
                ParseState {
                    current: Some(name),
                    entries: upserted(
                        st.entries,
                        name,
                        CredentialView { azure_tenant_id: None, credential_process: None },
                    ),
                },
            )
        } else {
            None
        }
    } else if has_eq(t) {
        match st.current {
            Some(sec) => Some(
                ParseState {
                    current: st.current,
                    entries: updated_cred(st.entries, sec, key_of(t), value_of(t)),
                },
            ),
            None => None,
        }
    } else {
        None
    }
}

/// The store file folded line by line, front to back.
pub open spec fn parse_lines(lines: Seq<Seq<char>>) -> Option<ParseState>
    decreases lines.len(),
{
    if lines.len() == 0 {
        Some(ParseState { current: None, entries: Seq::<EntryView>::empty() })
    } else {
        match parse_lines(lines.drop_last()) {
            Some(st) => apply_line(st, lines.last()),
            None => None,
        }
    }
}

/// The content split at every newline; the result always has at least one
/// (possibly empty) line.
pub open spec fn split_lines(s: Seq<char>) -> Seq<Seq<char>>
    decreases s.len(),
{
    if s.len() == 0 {
        seq![Seq::<char>::empty()]
    } else if s[0] == '\n' {
        seq![Seq::<char>::empty()] + split_lines(s.drop_first())
    } else {
        let rest = split_lines(s.drop_first());
        seq![seq![s[0]] + rest[0]] + rest.drop_first()
    }
}

proof fn lemma_split_lines_len(s: Seq<char>)
    ensures
        split_lines(s).len() >= 1,
    decreases s.len(),
{
    if s.len() > 0 {
        lemma_split_lines_len(s.drop_first());
    }
}

proof fn lemma_split_none(s: Seq<char>)
    requires
        forall|k: int| 0 <= k < s.len() ==> s[k] != '\n',
    ensures
        split_lines(s) == seq![s],
    decreases s.len(),
{
    if s.len() > 0 {
        lemma_split_none(s.drop_first());
        lemma_split_lines_len(s.drop_first());
        assert(seq![s[0]] + s.drop_first() =~= s);
        assert(split_lines(s) =~= seq![s]);
    } else {
        assert(s =~= Seq::<char>::empty());
        assert(split_lines(s) =~= seq![s]);
    }
}

proof fn lemma_split_first(s: Seq<char>, i: int)
    requires
        0 <= i < s.len(),
        s[i] == '\n',
        forall|k: int| 0 <= k < i ==> s[k] != '\n',
    ensures
        split_lines(s) == seq![s.take(i)] + split_lines(s.skip(i + 1)),
    decreases i,
{
    if i == 0 {
        assert(s.take(0) =~= Seq::<char>::empty());
        assert(s.skip(1) =~= s.drop_first());
    } else {
        lemma_split_first(s.drop_first(), i - 1);
        lemma_split_lines_len(s.drop_first());
        assert(s.drop_first().take(i - 1) =~= s.take(i).drop_first());
        assert(s.drop_first().skip(i) =~= s.skip(i + 1));
        let rest = split_lines(s.drop_first());
        assert(rest[0] == s.take(i).drop_first());
        assert(seq![s[0]] + s.take(i).drop_first() =~= s.take(i));
        assert(rest.drop_first() =~= split_lines(s.skip(i + 1)));
        assert(split_lines(s) =~= seq![s.take(i)] + split_lines(s.skip(i + 1)));
    }
}

/// The profiles of a whole store file, or `None` where a line is malformed.
pub open spec fn parsed_profiles(content: Seq<char>) -> Option<Seq<EntryView>> {
    match parse_lines(split_lines(content)) {
        Some(st) => Some(st.entries),
        None => None,
    }
}

/// The content split into lines at every newline.
pub fn split_into_lines(s: &str) -> (r: Vec<String>)
    ensures
        r.deep_view() == split_lines(s@),
{
    let n = s.unicode_len();
    let mut r: Vec<String> = Vec::new();
    let mut pos: usize = 0;
    proof {
        assert(s@.skip(0) =~= s@);
        assert(r.deep_view() + split_lines(s@) =~= split_lines(s@));
    }
    loop
        invariant
            pos <= n,
            n == s@.len(),
            split_lines(s@) == r.deep_view() + split_lines(s@.skip(pos as int)),
        decreases n - pos,
    {
        let mut i: usize = pos;
        while i < n && s.get_char(i) != '\n'
            invariant
                pos <= i <= n,
                n == s@.len(),
                forall|k: int| pos <= k < i ==> s@[k] != '\n',
            decreases n - i,
        {
            i += 1;
        }
        let head = s.substring_char(pos, i).to_owned();
        let ghost r0 = r;
        r.push(head);
        proof {
            assert(head@ == s@.skip(pos as int).take(i - pos)) by {
                assert(s@.subrange(pos as int, i as int) =~= s@.skip(pos as int).take(i - pos));
            }
            assert forall|q: int| 0 <= q < r@.len() implies (#[trigger] r.deep_view()[q]) == (
            r0.deep_view() + seq![head@])[q] by {
                assert(r.deep_view()[q] == r@[q]@);
                if q < r0@.len() {
                    assert(r@[q] == r0@[q]);
                    assert(r0.deep_view()[q] == r0@[q]@);
                }
            }
            assert(r.deep_view() =~= r0.deep_view() + seq![head@]);
        }
        if i == n {
            proof {
                let suffix = s@.skip(pos as int);
                assert(forall|k: int| 0 <= k < suffix.len() ==> suffix[k] != '\n');
                lemma_split_none(suffix);
                assert(head@ == suffix) by {
                    assert(s@.subrange(pos as int, n as int) =~= suffix);
                }
                assert(split_lines(s@) =~= r.deep_view());
            }
            return r;
        }
        proof {
            let suffix = s@.skip(pos as int);
            lemma_split_first(suffix, i - pos);
            assert(suffix.skip(i - pos + 1) =~= s@.skip(i + 1));
            assert(r0.deep_view() + (seq![head@] + split_lines(s@.skip(i + 1))) =~= r.deep_view()
                + split_lines(s@.skip(i + 1)));
        }
        pos = i + 1;
    }
}

fn apply_field(c: &AwsCredential, key: &str, value: String) -> (r: AwsCredential)
    ensures
        r@ == with_field(c@, key@, value@),
{
    let tenant = match &c.azure_tenant_id {
        Some(t) => Some(t.clone()),
        None => None,
    };
    let process = match &c.credential_process {
        Some(t) => Some(t.clone()),
        None => None,
    };
    if str_eq(key, "azure_tenant_id") {
        AwsCredential { azure_tenant_id: Some(value), credential_process: process }
    } else if str_eq(key, "credential_process") {
        AwsCredential { azure_tenant_id: tenant, credential_process: Some(value) }
    } else {
        AwsCredential { azure_tenant_id: tenant, credential_process: process }
    }
}

impl ProfileStore {
    /// Write one recognized field of the profile stored under `name`.
    pub fn update_field(&mut self, name: &str, key: &str, value: String)
        requires
            old(self).wf(),
        ensures
            final(self).wf(),
            final(self)@ == updated_cred(old(self)@, name@, key@, value@),
    {
        let n = self.entries.len();
        let mut i: usize = 0;
        while i < n
            invariant
                self@ == old(self)@,
                distinct_names(self@),
                n == self.entries@.len(),
                i <= n,
                forall|k: int| 0 <= k < i ==> (#[trigger] self@[k]).name != name@,
            decreases n - i,
        {
            if str_eq(self.entries[i].name.as_str(), name) {
                proof {
                    assert(self@[i as int].name == name@);
                }
                let nm = self.entries[i].name.clone();
                let cred = apply_field(&self.entries[i].cred, key, value);
                let ghost before = self@;
                let ghost eb = self.entries;
                self.entries[i] = ProfileEntry { name: nm, cred };
                proof {
                    let target = updated_cred(before, name@, key@, value@);
                    let idx = choose|k: int|
                        0 <= k < before.len() && (#[trigger] before[k]).name == name@;
                    assert(idx == i as int);
                    assert forall|k: int| 0 <= k < self@.len() implies self@[k] == target[k] by {
                        assert(self@[k] == self.entries@[k]@);
                        assert(before[k] == eb@[k]@);
                        if k != i as int {
                            assert(self.entries@[k] == eb@[k]);
                        }
                    }
                    assert(self@ =~= target);
                }
                return ;
            }
            i += 1;
        }
        proof {
            assert(!(exists|k: int|
                0 <= k < self@.len() && (#[trigger] self@[k]).name == name@));
        }
    }
}

proof fn lemma_parse_prefix_none(lines: Seq<Seq<char>>, j: int, k: int)
    requires
        0 <= j <= k <= lines.len(),
        parse_lines(lines.take(j)) is None,
    ensures
        parse_lines(lines.take(k)) is None,
    decreases k - j,
{
    if k > j {
        lemma_parse_prefix_none(lines, j, k - 1);
        assert(lines.take(k).drop_last() =~= lines.take(k - 1));
        assert(lines.take(k).len() > 0);
    }
}

/// Parse the credential store file into named profiles: sections become
/// entries under their bare names, recognized fields are kept, unrecognized
/// ones ignored, and a malformed line is a configuration error.
pub fn get_aws_config_sections(content: &str) -> (r: Result<ProfileStore, AppError>)
    ensures
        match parsed_profiles(content@) {
            Some(entries) => r matches Ok(s) && s@ == entries && s.wf(),
            None => r matches Err(e) && e is Config,
        },
{
    let lines = split_into_lines(content);
    let ghost lv = lines.deep_view();
    let mut store = ProfileStore::new();
    let mut current: Option<String> = None;
    let n = lines.len();
    let mut j: usize = 0;
    proof {
        assert(lv.take(0) =~= Seq::<Seq<char>>::empty());
    }
    while j < n
        invariant
            n == lines@.len(),
            j <= n,
            lv == lines.deep_view(),
            lv == split_lines(content@),
            lv.len() == n,
            store.wf(),
            parse_lines(lv.take(j as int)) == Some(
                ParseState { current: current.deep_view(), entries: store@ },
            ),
        decreases n - j,
    {
        proof {
            assert(lv.take(j + 1).drop_last() =~= lv.take(j as int));
            assert(lv.take(j + 1).last() == lv[j as int]);
            assert(lv[j as int] == lines@[j as int]@);
        }
        let ghost st = ParseState { current: current.deep_view(), entries: store@ };
        let line = &lines[j];
        let t = str_trim(line.as_str());
        let tl = t.as_str().unicode_len();
        if tl == 0 {
            proof {
                assert(is_skippable(lv[j as int]));
            }
            j += 1;
            continue ;
        }
        let c0 = t.as_str().get_char(0);
        if c0 == ';' || c0 == '#' {
            proof {
                assert(is_skippable(lv[j as int]));
            }
            j += 1;
            continue ;
        }
        proof {
            assert(!is_skippable(lv[j as int]));
        }
        if c0 == '[' {
            if tl >= 2 && t.as_str().get_char(tl - 1) == ']' {
                proof {
                    assert(trimmed(lv[j as int]).last() == ']');
                    assert(is_section_line(lv[j as int]));
                }
                let inner = t.as_str().substring_char(1, tl - 1);
                let it = str_trim(inner);
                let name = normalize_section_name(it.as_str());
                proof {
                    assert(inner@ == trimmed(lv[j as int]).drop_first().drop_last()) by {
                        assert(t@.subrange(1, tl - 1) =~= t@.drop_first().drop_last());
                    }
                    assert(name@ == section_name_of(lv[j as int]));
                }
                let blank = AwsCredential { azure_tenant_id: None, credential_process: None };
                proof {
                    assert(blank@ == CredentialView {
                        azure_tenant_id: None,
                        credential_process: None,
                    });
                }
                store.upsert(name.clone(), blank);
                current = Some(name);
                proof {
                    assert(apply_line(st, lv[j as int]) == Some(
                        ParseState { current: current.deep_view(), entries: store@ },
                    ));
                }
                j += 1;
                continue ;
            }
            proof {
                assert(!is_section_line(lv[j as int]));
                assert(apply_line(st, lv[j as int]) is None);
                lemma_parse_prefix_none(lv, j + 1, n as int);
                assert(lv.take(n as int) =~= lv);
            }
            return Err(AppError::Config(String::from_str("unterminated section header")));
        }
        let mut e: usize = 0;
        let mut found = false;
        while e < tl && !found
            invariant
                tl == t@.len(),
                e <= tl,
                found ==> e < tl && t@[e as int] == '=',
                forall|k: int| 0 <= k < e ==> t@[k] != '=',
            decreases tl - e + (if found { 0int } else { 1int }),
        {
            if t.as_str().get_char(e) == '=' {
                found = true;
            } else {
                e += 1;
            }
        }
        if !found {
            proof {
                assert(!has_eq(trimmed(lv[j as int])));
                assert(apply_line(st, lv[j as int]) is None);
                lemma_parse_prefix_none(lv, j + 1, n as int);
                assert(lv.take(n as int) =~= lv);
            }
            return Err(AppError::Config(String::from_str("line is neither section nor key")));
        }
        proof {
            lemma_first_eq(t@, e as int);
        }
        match &current {
            Some(sec) => {
                let key = str_trim(t.as_str().substring_char(0, e));
                let value = str_trim(t.as_str().substring_char(e + 1, tl));
                proof {
                    assert(t@.subrange(0, e as int) =~= t@.take(e as int));
                    assert(t@.subrange(e + 1, tl as int) =~= t@.skip(e + 1));
                    assert(key@ == key_of(t@));
                    assert(value@ == value_of(t@));
                }
                store.update_field(sec.as_str(), key.as_str(), value);
                proof {
                    assert(apply_line(st, lv[j as int]) == Some(
                        ParseState { current: current.deep_view(), entries: store@ },
                    ));
                }
            },
            None => {
                proof {
                    assert(apply_line(st, lv[j as int]) is None);
                    lemma_parse_prefix_none(lv, j + 1, n as int);
                    assert(lv.take(n as int) =~= lv);
                }
                return Err(AppError::Config(String::from_str("key outside any section")));
            },
        }
        j += 1;
    }
    proof {
        assert(lv.take(n as int) =~= lv);
    }
    Ok(store)
}

} // verus!
