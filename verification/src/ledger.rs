//! The local upload ledger.
//!
//! bilibili's own listing lags behind a fresh upload, so asking it alone whether a
//! part was uploaded lets the next run upload the same part again. The ledger
//! records every part as soon as its upload succeeds; the caller writes it to disk
//! right after each change.
use crate::get_video_list::VideoUrl;
use crate::text::{chars_of, decimal, decimal_chars, same_text, string_of};
use vstd::prelude::*;

verus! {

/// One uploaded part.
#[derive(Debug)]
pub struct Entry {
    /// The archive the part went into.
    pub bv: String,
    /// The part title inside that archive.
    pub part_title: String,
    /// The play title.
    pub title: String,
    /// When the upload finished (Unix seconds).
    pub uploaded_at: i64,
}

/// What an entry says.
pub struct EntryView {
    pub bv: Seq<char>,
    pub part_title: Seq<char>,
    pub title: Seq<char>,
    pub uploaded_at: i64,
}

impl View for Entry {
    type V = EntryView;

    open spec fn view(&self) -> EntryView {
        EntryView {
            bv: self.bv@,
            part_title: self.part_title@,
            title: self.title@,
            uploaded_at: self.uploaded_at,
        }
    }
}

impl Entry {
    /// A copy of this entry.
    pub fn duplicate(&self) -> (r: Entry)
        ensures
            r@ == self@,
    {
        Entry {
            bv: self.bv.clone(),
            part_title: self.part_title.clone(),
            title: self.title.clone(),
            uploaded_at: self.uploaded_at,
        }
    }
}

/// The key of a part: `id:<id>` when the listing gives a stable id, `name:<name>`
/// otherwise.
pub open spec fn key_of(id: u64, name: Seq<char>) -> Seq<char> {
    if id != 0 {
        seq!['i', 'd', ':'] + decimal(id as nat)
    } else {
        seq!['n', 'a', 'm', 'e', ':'] + name
    }
}

/// The de-duplication key of a part; prefers the stable id, and falls back to the
/// episode name for listings that carry none.
pub fn part_key(v: &VideoUrl) -> (r: String)
    ensures
        r@ == key_of(v.id, v.name@),
{
    if v.id != 0 {
        let mut k: Vec<char> = vec!['i', 'd', ':'];
        let d = decimal_chars(v.id);
        let ghost k0 = k@;
        let mut i: usize = 0;
        while i < d.len()
            invariant
                i <= d.len(),
                k0 == seq!['i', 'd', ':'],
                k@ == k0 + d@.take(i as int),
            decreases d.len() - i,
        {
            k.push(d[i]);
            i = i + 1;
            assert(k@ =~= k0 + d@.take(i as int));
        }
        assert(d@.take(d.len() as int) =~= d@);
        string_of(&k)
    } else {
        let mut k: Vec<char> = vec!['n', 'a', 'm', 'e', ':'];
        let n = chars_of(v.name.as_str());
        let ghost k0 = k@;
        let mut i: usize = 0;
        while i < n.len()
            invariant
                i <= n.len(),
                k0 == seq!['n', 'a', 'm', 'e', ':'],
                k@ == k0 + n@.take(i as int),
            decreases n.len() - i,
        {
            k.push(n[i]);
            i = i + 1;
            assert(k@ =~= k0 + n@.take(i as int));
        }
        assert(n@.take(n.len() as int) =~= n@);
        string_of(&k)
    }
}

/// Law: two parts share a key only when both carry the same stable id, or when
/// neither carries one and their names agree.
pub proof fn lemma_part_key_injective(id1: u64, name1: Seq<char>, id2: u64, name2: Seq<char>)
    requires
        key_of(id1, name1) == key_of(id2, name2),
    ensures
        (id1 != 0 && id1 == id2) || (id1 == 0 && id2 == 0 && name1 == name2),
{
    let k1 = key_of(id1, name1);
    let k2 = key_of(id2, name2);
    if id1 != 0 && id2 != 0 {
        assert(decimal(id1 as nat) =~= k1.skip(3));
        assert(decimal(id2 as nat) =~= k2.skip(3));
        crate::text::lemma_decimal_injective(id1 as nat, id2 as nat);
    } else if id1 == 0 && id2 == 0 {
        assert(name1 =~= k1.skip(5));
        assert(name2 =~= k2.skip(5));
    } else if id1 != 0 {
        assert(k1[0] == 'i');
        assert(k2[0] == 'n');
    } else {
        assert(k1[0] == 'n');
        assert(k2[0] == 'i');
    }
}

/// The ledger: part key -> entry.
pub struct Ledger {
    parts: Vec<(String, Entry)>,
}

/// The map that a list of (key, entry) pairs describes; a later pair wins.
pub open spec fn map_of(s: Seq<(String, Entry)>) -> Map<Seq<char>, EntryView>
    decreases s.len(),
{
    if s.len() == 0 {
        Map::empty()
    } else {
        map_of(s.drop_last()).insert(s.last().0@, s.last().1@)
    }
}

/// No key occurs twice.
pub open spec fn keys_distinct(s: Seq<(String, Entry)>) -> bool {
    forall|i: int, j: int| 0 <= i < j < s.len() ==> (#[trigger] s[i]).0@ != (#[trigger] s[j]).0@
}

proof fn lemma_map_of_keys(s: Seq<(String, Entry)>, k: Seq<char>)
    ensures
        map_of(s).contains_key(k) <==> exists|j: int| 0 <= j < s.len() && (#[trigger] s[j]).0@ == k,
    decreases s.len(),
{
    if s.len() > 0 {
        lemma_map_of_keys(s.drop_last(), k);
        if map_of(s).contains_key(k) && k != s.last().0@ {
            let j = choose|j: int| 0 <= j < s.drop_last().len() && (#[trigger] s.drop_last()[j]).0@ == k;
            assert(s[j] == s.drop_last()[j]);
        }
        if exists|j: int| 0 <= j < s.len() && (#[trigger] s[j]).0@ == k {
            let j = choose|j: int| 0 <= j < s.len() && (#[trigger] s[j]).0@ == k;
            if j < s.len() - 1 {
                assert(s.drop_last()[j] == s[j]);
            }
        }
    }
}

proof fn lemma_map_of_value(s: Seq<(String, Entry)>, i: int)
    requires
        keys_distinct(s),
        0 <= i < s.len(),
    ensures
        map_of(s).contains_key(s[i].0@),
        map_of(s)[s[i].0@] == s[i].1@,
    decreases s.len(),
{
    if i < s.len() - 1 {
        assert(s.drop_last()[i] == s[i]);
        lemma_map_of_value(s.drop_last(), i);
        assert(s[i].0@ != s.last().0@);
    }
}

proof fn lemma_map_of_update(s: Seq<(String, Entry)>, i: int, p: (String, Entry))
    requires
        keys_distinct(s),
        0 <= i < s.len(),
        s[i].0@ == p.0@,
    ensures
        map_of(s.update(i, p)) == map_of(s).insert(p.0@, p.1@),
    decreases s.len(),
{
    let t = s.update(i, p);
    if i == s.len() - 1 {
        assert(t.drop_last() =~= s.drop_last());
        assert(map_of(t) =~= map_of(s).insert(p.0@, p.1@));
    } else {
        assert(t.drop_last() =~= s.drop_last().update(i, p));
        lemma_map_of_update(s.drop_last(), i, p);
        assert(s[i].0@ != s.last().0@);
        assert(map_of(t) =~= map_of(s).insert(p.0@, p.1@));
    }
}

/// An entry is visible under `key` when it exists and, if an archive is expected,
/// was recorded for that archive (an empty expectation accepts any archive).
pub open spec fn lookup(m: Map<Seq<char>, EntryView>, key: Seq<char>, expect_bv: Option<Seq<char>>) -> Option<EntryView> {
    if !m.contains_key(key) {
        None
    } else {
        match expect_bv {
            Some(bv) => if bv.len() > 0 && m[key].bv != bv {
                None
            } else {
                Some(m[key])
            },
            None => Some(m[key]),
        }
    }
}

/// `m` without the entries recorded for archive `bv`.
pub open spec fn without_archive(m: Map<Seq<char>, EntryView>, bv: Seq<char>) -> Map<Seq<char>, EntryView> {
    Map::new(|k: Seq<char>| m.contains_key(k) && m[k].bv != bv, |k: Seq<char>| m[k])
}

impl View for Ledger {
    type V = Map<Seq<char>, EntryView>;

    /// The ledger as a map from part key to entry.
    closed spec fn view(&self) -> Map<Seq<char>, EntryView> {
        map_of(self.parts@)
    }
}

/// Law: a part that was just recorded is found again under its key, with no expected
/// archive or with the archive it was recorded for; expecting any other archive finds
/// nothing.
pub proof fn lemma_record_then_contains(
    m: Map<Seq<char>, EntryView>,
    key: Seq<char>,
    e: EntryView,
    other_bv: Seq<char>,
)
    ensures
        lookup(m.insert(key, e), key, None) == Some(e),
        lookup(m.insert(key, e), key, Some(e.bv)) == Some(e),
        other_bv.len() > 0 && other_bv != e.bv ==> lookup(m.insert(key, e), key, Some(other_bv))
            is None,
{
}

/// Law: recording a part leaves what every other key finds unchanged.
pub proof fn lemma_record_keeps_others(
    m: Map<Seq<char>, EntryView>,
    key: Seq<char>,
    e: EntryView,
    other: Seq<char>,
    expect_bv: Option<Seq<char>>,
)
    requires
        other != key,
    ensures
        lookup(m.insert(key, e), other, expect_bv) == lookup(m, other, expect_bv),
{
}

/// Law: once an archive is forgotten none of its parts is found, and every other part
/// is found exactly as before.
pub proof fn lemma_forget_archive(
    m: Map<Seq<char>, EntryView>,
    bv: Seq<char>,
    key: Seq<char>,
    expect_bv: Option<Seq<char>>,
)
    ensures
        m.contains_key(key) && m[key].bv == bv ==> lookup(without_archive(m, bv), key, expect_bv)
            is None,
        !(m.contains_key(key) && m[key].bv == bv) ==> lookup(without_archive(m, bv), key, expect_bv)
            == lookup(m, key, expect_bv),
{
}

/// Law: a ledger written out with `entries` and loaded back with `load` answers every
/// question as before, so what one run recorded the next run still finds.
pub proof fn lemma_reload_answers_alike(
    before: Map<Seq<char>, EntryView>,
    written: Seq<(String, Entry)>,
    after: Map<Seq<char>, EntryView>,
    key: Seq<char>,
    expect_bv: Option<Seq<char>>,
)
    requires
        map_of(written) == before,
        after == map_of(written),
    ensures
        lookup(after, key, expect_bv) == lookup(before, key, expect_bv),
{
}

/// What the persisted ledger file turned out to hold.
pub enum LedgerSource {
    /// There is no file yet.
    Missing,
    /// The file exists but could not be read; the message says why.
    ReadFailed(String),
    /// The file was read but does not parse.
    Corrupt,
    /// The file parsed into these (key, entry) pairs.
    Parsed(Vec<(String, Entry)>),
}

/// The view of an optional entry.
pub open spec fn opt_entry(o: Option<Entry>) -> Option<EntryView> {
    match o {
        Some(e) => Some(e@),
        None => None,
    }
}

/// The view of an optional text.
pub open spec fn opt_chars(o: Option<&str>) -> Option<Seq<char>> {
    match o {
        Some(s) => Some(s@),
        None => None,
    }
}

impl Ledger {
    /// Keys are unique.
    pub closed spec fn wf(&self) -> bool {
        keys_distinct(self.parts@)
    }

    /// An empty ledger.
    pub fn new() -> (l: Ledger)
        ensures
            l.wf(),
            l.view() == Map::<Seq<char>, EntryView>::empty(),
    {
        Ledger { parts: Vec::new() }
    }

    /// Builds the ledger from what the file held. A missing or unparsable file gives an
    /// empty ledger (a broken ledger must not stop the run); a file that cannot be read
    /// is an error carrying the reason. Parsed pairs are recorded in order.
    pub fn load(source: LedgerSource) -> (r: Result<Ledger, String>)
        ensures
            match source {
                LedgerSource::ReadFailed(msg) => r matches Err(e) && e@ == msg@,
                LedgerSource::Missing | LedgerSource::Corrupt => r matches Ok(l) && l.wf()
                    && l.view() == Map::<Seq<char>, EntryView>::empty(),
                LedgerSource::Parsed(pairs) => r matches Ok(l) && l.wf() && l.view() == map_of(
                    pairs@,
                ),
            },
    {
        match source {
            LedgerSource::ReadFailed(msg) => Err(msg),
            LedgerSource::Missing => Ok(Ledger::new()),
            LedgerSource::Corrupt => Ok(Ledger::new()),
            LedgerSource::Parsed(pairs) => {
                let mut l = Ledger::new();
                let ghost all = pairs@;
                let mut rest = pairs;
                assert(all.skip(0) =~= all);
                let n = rest.len();
                let mut i: usize = 0;
                while i < n
                    invariant
                        n == all.len(),
                        i <= n,
                        rest@ == all.skip(i as int),
                        l.wf(),
                        l.view() == map_of(all.take(i as int)),
                    decreases n - i,
                {
                    let p = rest.remove(0);
                    assert(p == all[i as int]);
                    assert(rest@ =~= all.skip(i + 1));
                    l.record(p.0, p.1);
                    assert(all.take(i + 1).drop_last() =~= all.take(i as int));
                    i = i + 1;
                }
                assert(all.take(n as int) =~= all);
                Ok(l)
            },
        }
    }

    /// Number of recorded parts.
    pub fn len(&self) -> (n: usize)
        requires
            self.wf(),
        ensures
            n == self.view().len(),
    {
        proof {
            self.lemma_len();
        }
        self.parts.len()
    }

    proof fn lemma_len(&self)
        requires
            self.wf(),
        ensures
            self.view().len() == self.parts@.len(),
            self.view().dom().finite(),
    {
        lemma_map_of_len(self.parts@);
    }

    /// Position of `key`, if recorded.
    fn position(&self, key: &str) -> (r: Option<usize>)
        requires
            self.wf(),
        ensures
            match r {
                Some(i) => i < self.parts@.len() && self.parts@[i as int].0@ == key@,
                None => !self.view().contains_key(key@),
            },
    {
        let mut i: usize = 0;
        while i < self.parts.len()
            invariant
                i <= self.parts@.len(),
                forall|j: int| 0 <= j < i ==> (#[trigger] self.parts@[j]).0@ != key@,
            decreases self.parts@.len() - i,
        {
            if same_text(self.parts[i].0.as_str(), key) {
                return Some(i);
            }
            i = i + 1;
        }
        proof {
            lemma_map_of_keys(self.parts@, key@);
        }
        None
    }

    /// The entry recorded under `key`, if any; with an expected archive, an entry that
    /// went into a different archive counts as absent (the target archive changed, so
    /// the part must be uploaded again).
    pub fn contains(&self, key: &str, expect_bv: Option<&str>) -> (r: Option<Entry>)
        requires
            self.wf(),
        ensures
            opt_entry(r) == lookup(self.view(), key@, opt_chars(expect_bv)),
    {
        match self.position(key) {
            None => None,
            Some(i) => {
                proof {
                    lemma_map_of_value(self.parts@, i as int);
                }
                let e = &self.parts[i].1;
                match expect_bv {
                    Some(bv) => {
                        let b = chars_of(bv);
                        if b.len() > 0 && !same_text(e.bv.as_str(), bv) {
                            None
                        } else {
                            Some(e.duplicate())
                        }
                    },
                    None => Some(e.duplicate()),
                }
            },
        }
    }

    /// Records `entry` under `key`, replacing what was there.
    pub fn record(&mut self, key: String, entry: Entry)
        requires
            old(self).wf(),
        ensures
            final(self).wf(),
            final(self).view() == old(self).view().insert(key@, entry@),
    {
        match self.position(key.as_str()) {
            Some(i) => {
                proof {
                    lemma_map_of_update(self.parts@, i as int, (key, entry));
                }
                self.parts.set(i, (key, entry));
                assert forall|a: int, b: int| 0 <= a < b < self.parts@.len() implies (
                #[trigger] self.parts@[a]).0@ != (#[trigger] self.parts@[b]).0@ by {
                    assert(old(self).parts@[a].0@ != old(self).parts@[b].0@);
                }
            },
            None => {
                proof {
                    lemma_map_of_keys(self.parts@, key@);
                }
                let ghost before = self.parts@;
                self.parts.push((key, entry));
                assert(self.parts@.drop_last() =~= before);
                assert forall|a: int, b: int| 0 <= a < b < self.parts@.len() implies (
                #[trigger] self.parts@[a]).0@ != (#[trigger] self.parts@[b]).0@ by {
                    if b == self.parts@.len() - 1 {
                        assert(before[a] == self.parts@[a]);
                    } else {
                        assert(before[a] == self.parts@[a]);
                        assert(before[b] == self.parts@[b]);
                    }
                }
            },
        }
    }

    /// Forgets every part recorded for archive `bv` (the archive was rejected and will
    /// be submitted anew); returns how many were forgotten, so that the caller saves
    /// only when something changed.
    pub fn forget_archive(&mut self, bv: &str) -> (removed: usize)
        requires
            old(self).wf(),
        ensures
            final(self).wf(),
            final(self).view() == without_archive(old(self).view(), bv@),
            removed == old(self).view().len() - final(self).view().len(),
            (removed > 0) == exists|k: Seq<char>| #[trigger]
                old(self).view().contains_key(k) && old(self).view()[k].bv == bv@,
    {
        let ghost old_parts = self.parts@;
        assert(old_parts.skip(0) =~= old_parts);
        let mut kept: Vec<(String, Entry)> = Vec::new();
        let mut rest = Vec::new();
        std::mem::swap(&mut rest, &mut self.parts);
        let n = rest.len();
        let mut i: usize = 0;
        while i < n
            invariant
                n == old_parts.len(),
                keys_distinct(old_parts),
                i <= n,
                rest@ == old_parts.skip(i as int),
                keys_distinct(kept@),
                map_of(kept@) == without_archive(map_of(old_parts.take(i as int)), bv@),
                forall|a: int| 0 <= a < kept@.len() ==> exists|b: int| 0 <= b < i && (#[trigger] kept@[a]).0@ == (#[trigger] old_parts[b]).0@,
            decreases n - i,
        {
            let p = rest.remove(0);
            assert(p == old_parts[i as int]);
            assert(rest@ =~= old_parts.skip(i + 1));
            let ghost pre = old_parts.take(i as int);
            assert(old_parts.take(i + 1).drop_last() =~= pre);
            assert(old_parts.take(i + 1).last() == p);
            proof {
                lemma_map_of_keys(pre, p.0@);
                if map_of(pre).contains_key(p.0@) {
                    let j = choose|j: int| 0 <= j < pre.len() && (#[trigger] pre[j]).0@ == p.0@;
                    assert(old_parts[j] == pre[j]);
                }
            }
            if !same_text(p.1.bv.as_str(), bv) {
                let ghost before = kept@;
                proof {
                    lemma_map_of_keys(before, p.0@);
                }
                kept.push(p);
                assert(kept@.drop_last() =~= before);
                assert(map_of(kept@) =~= without_archive(map_of(old_parts.take(i + 1)), bv@));
                assert forall|a: int, b: int| 0 <= a < b < kept@.len() implies (
                #[trigger] kept@[a]).0@ != (#[trigger] kept@[b]).0@ by {
                    assert(before[a] == kept@[a]);
                    if b < before.len() {
                        assert(before[b] == kept@[b]);
                    } else {
                        let c = choose|c: int| 0 <= c < i && (#[trigger] before[a]).0@ == (#[trigger] old_parts[c]).0@;
                        assert(old_parts[c].0@ != old_parts[i as int].0@);
                    }
                }
                assert forall|a: int| 0 <= a < kept@.len() implies exists|b: int| 0 <= b < i + 1 && (#[trigger] kept@[a]).0@ == (#[trigger] old_parts[b]).0@ by {
                    if a < before.len() {
                        assert(before[a] == kept@[a]);
                    } else {
                        assert(kept@[a].0@ == old_parts[i as int].0@);
                    }
                }
            } else {
                assert(map_of(kept@) =~= without_archive(map_of(old_parts.take(i + 1)), bv@));
            }
            i = i + 1;
        }
        assert(old_parts.take(n as int) =~= old_parts);
        self.parts = kept;
        proof {
            lemma_map_of_len(old_parts);
            lemma_map_of_len(self.parts@);
            let m0 = map_of(old_parts);
            let m1 = map_of(self.parts@);
            assert(m1.dom() =~= m0.dom().filter(|k: Seq<char>| m0[k].bv != bv@));
            m0.dom().lemma_len_filter(|k: Seq<char>| m0[k].bv != bv@);
            if exists|k: Seq<char>| #[trigger] m0.contains_key(k) && m0[k].bv == bv@ {
                let k = choose|k: Seq<char>| #[trigger] m0.contains_key(k) && m0[k].bv == bv@;
                assert(!m1.dom().contains(k));
                vstd::set_lib::lemma_len_subset(m1.dom(), m0.dom().remove(k));
            } else {
                assert(m1.dom() =~= m0.dom());
            }
        }
        let removed = n - self.parts.len();
        removed
    }

    /// Every (key, entry) pair, for writing the ledger to disk.
    pub fn entries(&self) -> (r: Vec<(String, Entry)>)
        requires
            self.wf(),
        ensures
            keys_distinct(r@),
            map_of(r@) == self.view(),
    {
        let mut r: Vec<(String, Entry)> = Vec::new();
        let mut i: usize = 0;
        while i < self.parts.len()
            invariant
                i <= self.parts@.len(),
                keys_distinct(self.parts@),
                r@.len() == i,
                forall|j: int| 0 <= j < i ==> (#[trigger] r@[j]).0@ == self.parts@[j].0@ && r@[j].1@
                    == self.parts@[j].1@,
                map_of(r@) == map_of(self.parts@.take(i as int)),
            decreases self.parts@.len() - i,
        {
            let k = self.parts[i].0.clone();
            let e = self.parts[i].1.duplicate();
            let ghost before = r@;
            r.push((k, e));
            assert(r@.drop_last() =~= before);
            assert(self.parts@.take(i + 1).drop_last() =~= self.parts@.take(i as int));
            i = i + 1;
        }
        assert(self.parts@.take(self.parts@.len() as int) =~= self.parts@);
        r
    }
}

proof fn lemma_map_of_len(s: Seq<(String, Entry)>)
    requires
        keys_distinct(s),
    ensures
        map_of(s).dom().finite(),
        map_of(s).len() == s.len(),
    decreases s.len(),
{
    if s.len() > 0 {
        let t = s.drop_last();
        assert(keys_distinct(t)) by {
            assert forall|i: int, j: int| 0 <= i < j < t.len() implies (#[trigger] t[i]).0@ != (#[trigger] t[j]).0@ by {
                assert(t[i] == s[i] && t[j] == s[j]);
            }
        }
        lemma_map_of_len(t);
        lemma_map_of_keys(t, s.last().0@);
        if map_of(t).contains_key(s.last().0@) {
            let j = choose|j: int| 0 <= j < t.len() && (#[trigger] t[j]).0@ == s.last().0@;
            assert(t[j] == s[j]);
        }
    }
}

} // verus!
