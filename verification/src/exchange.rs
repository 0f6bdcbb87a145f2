//! The record of what was sent out for review: per project, the packages
//! exported, the digest each marked row had when it left, and the comments that
//! travelled with it.

use vstd::prelude::*;
use crate::text::{has_non_space, str_has_non_space, str_eq};
use crate::mentions::copy_strings;

verus! {

/// At most this many projects are remembered; the least recently recorded goes first.
pub const MAX_PROJECTS: usize = 128;
/// At most this many packages are remembered per project; the oldest goes first.
pub const MAX_PACKAGES: usize = 64;

/// Whether a work uid names a saved project: it holds something besides white space.
pub fn uid_is_usable(uid: &str) -> (b: bool)
    ensures
        b == has_non_space(uid@),
{
    str_has_non_space(uid)
}

/// One marked row as it left: its uid and the digest of its prose.
#[derive(Debug, Default, PartialEq, Eq)]
pub struct SentRow {
    pub item_uid: String,
    pub digest: String,
}

/// One export sent for review.
#[derive(Debug, Default, PartialEq, Eq)]
pub struct SentPackage {
    pub sent_at: String,
    pub output_path: String,
    pub format: String,
    pub rows: Vec<SentRow>,
    pub comment_uids: Vec<String>,
}

/// Everything sent out of one project.
#[derive(Debug, Default, PartialEq, Eq)]
pub struct PerProjectExchange {
    pub work_uid: String,
    pub title: String,
    pub packages: Vec<SentPackage>,
}

/// The whole file.
#[derive(Debug, PartialEq, Eq)]
pub struct ExchangeFile {
    pub version: u32,
    pub projects: Vec<PerProjectExchange>,
}

/// A sent row as a value: `(item uid, digest)`.
pub open spec fn row_view(r: SentRow) -> (Seq<char>, Seq<char>) {
    (r.item_uid@, r.digest@)
}

/// A package as a value.
pub struct PackageView {
    pub sent_at: Seq<char>,
    pub output_path: Seq<char>,
    pub format: Seq<char>,
    pub rows: Seq<(Seq<char>, Seq<char>)>,
    pub comment_uids: Seq<Seq<char>>,
}

/// A project as a value.
pub struct ProjectView {
    pub work_uid: Seq<char>,
    pub title: Seq<char>,
    pub packages: Seq<PackageView>,
}

impl View for SentPackage {
    type V = PackageView;

    open spec fn view(&self) -> PackageView {
        PackageView {
            sent_at: self.sent_at@,
            output_path: self.output_path@,
            format: self.format@,
            rows: self.rows@.map_values(|r: SentRow| row_view(r)),
            comment_uids: self.comment_uids@.map_values(|s: String| s@),
        }
    }
}

/// The packages of `ps`, each as a value.
pub open spec fn packages_view(ps: Seq<SentPackage>) -> Seq<PackageView> {
    ps.map_values(|p: SentPackage| p@)
}

impl View for PerProjectExchange {
    type V = ProjectView;

    open spec fn view(&self) -> ProjectView {
        ProjectView {
            work_uid: self.work_uid@,
            title: self.title@,
            packages: packages_view(self.packages@),
        }
    }
}

/// The projects of `ps`, each as a value.
pub open spec fn projects_view(ps: Seq<PerProjectExchange>) -> Seq<ProjectView> {
    ps.map_values(|p: PerProjectExchange| p@)
}

/// The file format's current version.
pub const EXCHANGE_CURRENT_VERSION: u32 = 1;

/// The version a file without one is read as: the current one.
pub fn default_version() -> (v: u32)
    ensures
        v == EXCHANGE_CURRENT_VERSION,
{
    EXCHANGE_CURRENT_VERSION
}

impl Default for ExchangeFile {
    fn default() -> (f: ExchangeFile)
        ensures
            f.version == EXCHANGE_CURRENT_VERSION,
            f.projects@.len() == 0,
    {
        ExchangeFile { version: EXCHANGE_CURRENT_VERSION, projects: Vec::new() }
    }
}

/// The first position of the project with this uid, or -1.
pub open spec fn project_pos(ps: Seq<ProjectView>, uid: Seq<char>) -> int
    decreases ps.len(),
{
    if ps.len() == 0 {
        -1
    } else if ps[0].work_uid == uid {
        0
    } else {
        let r = project_pos(ps.drop_first(), uid);
        if r < 0 {
            -1
        } else {
            r + 1
        }
    }
}

proof fn lemma_project_pos(ps: Seq<ProjectView>, uid: Seq<char>, j: int)
    requires
        0 <= j <= ps.len(),
        forall|k: int| 0 <= k < j ==> (#[trigger] ps[k]).work_uid != uid,
    ensures
        j < ps.len() && ps[j].work_uid == uid ==> project_pos(ps, uid) == j,
        j == ps.len() ==> project_pos(ps, uid) == -1,
    decreases j,
{
    if j > 0 {
        assert forall|k: int| 0 <= k < j - 1 implies (#[trigger] ps.drop_first()[k]).work_uid
            != uid by {
            assert(ps.drop_first()[k] == ps[k + 1]);
        }
        lemma_project_pos(ps.drop_first(), uid, j - 1);
    }
}

/// `s` without its first `n` entries when it holds more than `cap`: the newest
/// `cap` survive.
pub open spec fn keep_newest<T>(s: Seq<T>, cap: nat) -> Seq<T> {
    if s.len() > cap {
        s.skip(s.len() - cap)
    } else {
        s
    }
}

/// The project with this uid, or an empty one for it when there is none.
pub open spec fn touched_project(ps: Seq<ProjectView>, uid: Seq<char>) -> ProjectView {
    let k = project_pos(ps, uid);
    if k >= 0 {
        ps[k]
    } else {
        ProjectView { work_uid: uid, title: Seq::empty(), packages: Seq::empty() }
    }
}

/// The projects other than the one with this uid, in their order.
pub open spec fn others(ps: Seq<ProjectView>, uid: Seq<char>) -> Seq<ProjectView> {
    let k = project_pos(ps, uid);
    if k >= 0 {
        ps.remove(k)
    } else {
        ps
    }
}

/// The projects after `package` is recorded against `uid` under `title`: the
/// project moves to the newest end, keeping its newest packages, and the file
/// keeps its newest projects, the least recently touched going first.
pub open spec fn recorded(ps: Seq<ProjectView>, uid: Seq<char>, title: Seq<char>, package: PackageView) -> Seq<
    ProjectView,
> {
    let p = touched_project(ps, uid);
    keep_newest(
        others(ps, uid).push(
            ProjectView {
                title: title,
                packages: keep_newest(p.packages.push(package), MAX_PACKAGES as nat),
                ..p
            },
        ),
        MAX_PROJECTS as nat,
    )
}

/// A copy of a sent row.
pub fn copy_row(r: &SentRow) -> (c: SentRow)
    ensures
        row_view(c) == row_view(*r),
{
    SentRow { item_uid: r.item_uid.clone(), digest: r.digest.clone() }
}

/// A copy of a package.
pub fn copy_package(p: &SentPackage) -> (c: SentPackage)
    ensures
        c@ == p@,
{
    let mut rows: Vec<SentRow> = Vec::new();
    let mut i: usize = 0;
    while i < p.rows.len()
        invariant
            0 <= i <= p.rows@.len(),
            rows@.map_values(|r: SentRow| row_view(r)) == p.rows@.map_values(
                |r: SentRow| row_view(r),
            ).take(i as int),
        decreases p.rows@.len() - i,
    {
        rows.push(copy_row(&p.rows[i]));
        proof {
            assert(p.rows@.map_values(|r: SentRow| row_view(r)).take(i as int + 1) == p.rows@.map_values(
                |r: SentRow| row_view(r),
            ).take(i as int).push(row_view(p.rows@[i as int])));
            assert(rows@.map_values(|r: SentRow| row_view(r)) == rows@.drop_last().map_values(
                |r: SentRow| row_view(r),
            ).push(row_view(rows@.last())));
        }
        i = i + 1;
    }
    assert(p.rows@.map_values(|r: SentRow| row_view(r)).take(p.rows@.len() as int) == p.rows@.map_values(
        |r: SentRow| row_view(r),
    ));
    let c = SentPackage {
        sent_at: p.sent_at.clone(),
        output_path: p.output_path.clone(),
        format: p.format.clone(),
        rows,
        comment_uids: copy_strings(&p.comment_uids),
    };
    assert(c.comment_uids@.map_values(|s: String| s@) == p.comment_uids@.map_values(|s: String| s@));
    c
}

/// Copies of every package of `ps`.
pub fn copy_packages(ps: &Vec<SentPackage>) -> (c: Vec<SentPackage>)
    ensures
        packages_view(c@) == packages_view(ps@),
{
    let mut out: Vec<SentPackage> = Vec::new();
    let mut i: usize = 0;
    while i < ps.len()
        invariant
            0 <= i <= ps@.len(),
            packages_view(out@) == packages_view(ps@).take(i as int),
        decreases ps@.len() - i,
    {
        let ghost o0 = out@;
        out.push(copy_package(&ps[i]));
        proof {
            assert(out@ == o0.push(out@.last()));
            assert(packages_view(out@) == packages_view(o0).push(ps@[i as int]@));
            assert(packages_view(ps@).take(i as int + 1) == packages_view(ps@).take(i as int).push(
                ps@[i as int]@,
            ));
        }
        i = i + 1;
    }
    assert(packages_view(ps@).take(ps@.len() as int) == packages_view(ps@));
    out
}

/// The packages recorded for `uid`, oldest first; none for an unusable uid.
pub open spec fn packages_spec(ps: Seq<ProjectView>, uid: Seq<char>) -> Seq<PackageView> {
    if !has_non_space(uid) || project_pos(ps, uid) < 0 {
        Seq::empty()
    } else {
        ps[project_pos(ps, uid)].packages
    }
}

/// The first digest recorded for `item` among `rows`, if any.
pub open spec fn digest_in(rows: Seq<(Seq<char>, Seq<char>)>, item: Seq<char>) -> Option<Seq<char>>
    decreases rows.len(),
{
    if rows.len() == 0 {
        None
    } else if rows[0].0 == item {
        Some(rows[0].1)
    } else {
        digest_in(rows.drop_first(), item)
    }
}

/// The digest `item` left with in the newest package that carried it.
pub open spec fn last_digest(ps: Seq<PackageView>, item: Seq<char>) -> Option<Seq<char>>
    decreases ps.len(),
{
    if ps.len() == 0 {
        None
    } else {
        match digest_in(ps.last().rows, item) {
            Some(d) => Some(d),
            None => last_digest(ps.drop_last(), item),
        }
    }
}

impl ExchangeFile {
    /// Move the project with this uid to the newest end, adding an empty one
    /// there if there is none; where it now sits.
    pub fn project_mut(&mut self, work_uid: &str) -> (at: usize)
        ensures
            final(self).version == old(self).version,
            at as int == final(self).projects@.len() - 1,
            projects_view(final(self).projects@) == others(projects_view(old(self).projects@), work_uid@).push(
                touched_project(projects_view(old(self).projects@), work_uid@),
            ),
    {
        let ghost pv = projects_view(self.projects@);
        let mut i: usize = 0;
        while i < self.projects.len()
            invariant
                0 <= i <= self.projects@.len(),
                pv == projects_view(self.projects@),
                pv == projects_view(old(self).projects@),
                self.version == old(self).version,
                forall|k: int| 0 <= k < i ==> (#[trigger] pv[k]).work_uid != work_uid@,
            decreases self.projects@.len() - i,
        {
            if str_eq(self.projects[i].work_uid.as_str(), work_uid) {
                proof {
                    lemma_project_pos(pv, work_uid@, i as int);
                }
                let ghost v0 = self.projects@;
                let p = self.projects.remove(i);
                self.projects.push(p);
                assert(projects_view(self.projects@) =~= pv.remove(i as int).push(pv[i as int]));
                return self.projects.len() - 1;
            }
            i = i + 1;
        }
        proof {
            lemma_project_pos(pv, work_uid@, i as int);
        }
        let ghost before = self.projects@;
        let fresh = PerProjectExchange {
            work_uid: crate::text::string_from_chars(crate::text::chars_of(work_uid).as_slice()),
            title: String::new(),
            packages: Vec::new(),
        };
        assert(packages_view(fresh.packages@) =~= Seq::<PackageView>::empty());
        assert(fresh@ == ProjectView { work_uid: work_uid@, title: Seq::empty(), packages: Seq::empty() });
        self.projects.push(fresh);
        assert(projects_view(self.projects@) =~= projects_view(before).push(fresh@));
        self.projects.len() - 1
    }

    /// Remember that `package` was sent from the project `work_uid`, now titled
    /// `title`. Nothing is written for an unusable uid or a package that marked
    /// no rows. The project moves to the newest end and keeps its newest
    /// packages; the file keeps its newest projects.
    pub fn record(&mut self, work_uid: &str, title: &str, package: SentPackage)
        ensures
            final(self).version == old(self).version,
            !has_non_space(work_uid@) || package.rows@.len() == 0 ==> projects_view(
                final(self).projects@,
            ) == projects_view(old(self).projects@),
            has_non_space(work_uid@) && package.rows@.len() > 0 ==> projects_view(
                final(self).projects@,
            ) == recorded(projects_view(old(self).projects@), work_uid@, title@, package@),
    {
        if !uid_is_usable(work_uid) || package.rows.len() == 0 {
            return;
        }
        let ghost pv0 = projects_view(self.projects@);
        let ghost pkg = package@;
        let at = self.project_mut(work_uid);
        let ghost pv1 = projects_view(self.projects@);
        let ghost v1 = self.projects@;
        let mut project = self.projects.remove(at);
        let ghost p0 = project@;
        assert(pv1[at as int] == v1[at as int]@);
        assert(pv1 == others(pv0, work_uid@).push(touched_project(pv0, work_uid@)));
        assert(at as int == pv1.len() - 1);
        assert(pv1.len() == others(pv0, work_uid@).len() + 1);
        assert(pv1[pv1.len() - 1] == touched_project(pv0, work_uid@));
        assert(pv1[at as int] == touched_project(pv0, work_uid@));
        assert(p0 == touched_project(pv0, work_uid@));
        assert(self.projects@ == v1.remove(at as int));
        assert(projects_view(self.projects@) =~= pv1.drop_last());
        assert(pv1.drop_last() =~= others(pv0, work_uid@));
        project.title = crate::text::string_from_chars(crate::text::chars_of(title).as_slice());
        let ghost pk0 = project.packages@;
        project.packages.push(package);
        assert(packages_view(project.packages@) == packages_view(pk0).push(pkg));
        let len = project.packages.len();
        if len > MAX_PACKAGES {
            let kept = project.packages.split_off(len - MAX_PACKAGES);
            project.packages = kept;
        }
        assert(packages_view(project.packages@) == keep_newest(
            p0.packages.push(pkg),
            MAX_PACKAGES as nat,
        ));
        let ghost v2 = self.projects@;
        self.projects.push(project);
        assert(projects_view(self.projects@) =~= others(pv0, work_uid@).push(
            ProjectView {
                title: title@,
                packages: keep_newest(p0.packages.push(pkg), MAX_PACKAGES as nat),
                ..p0
            },
        ));
        let n = self.projects.len();
        if n > MAX_PROJECTS {
            let ghost v3 = self.projects@;
            let kept = self.projects.split_off(n - MAX_PROJECTS);
            self.projects = kept;
            assert(projects_view(self.projects@) =~= projects_view(v3).skip(n - MAX_PROJECTS));
        }
    }

    /// The packages recorded for the project `work_uid`, oldest first; none for
    /// an unusable uid or a project never recorded.
    pub fn packages(&self, work_uid: &str) -> (out: Vec<SentPackage>)
        ensures
            packages_view(out@) == packages_spec(projects_view(self.projects@), work_uid@),
    {
        if !uid_is_usable(work_uid) {
            let none: Vec<SentPackage> = Vec::new();
            assert(packages_view(none@) =~= Seq::<PackageView>::empty());
            return none;
        }
        let ghost pv = projects_view(self.projects@);
        let mut i: usize = 0;
        while i < self.projects.len()
            invariant
                0 <= i <= self.projects@.len(),
                pv == projects_view(self.projects@),
                has_non_space(work_uid@),
                forall|k: int| 0 <= k < i ==> (#[trigger] pv[k]).work_uid != work_uid@,
            decreases self.projects@.len() - i,
        {
            if str_eq(self.projects[i].work_uid.as_str(), work_uid) {
                proof {
                    lemma_project_pos(pv, work_uid@, i as int);
                    assert(pv[i as int] == self.projects@[i as int]@);
                }
                return copy_packages(&self.projects[i].packages);
            }
            i = i + 1;
        }
        proof {
            lemma_project_pos(pv, work_uid@, i as int);
        }
        let none: Vec<SentPackage> = Vec::new();
        assert(packages_view(none@) =~= Seq::<PackageView>::empty());
        none
    }

    /// The digest `item_uid` left with in the newest package that carried it,
    /// from the project `work_uid`.
    pub fn last_sent_digest(&self, work_uid: &str, item_uid: &str) -> (d: Option<String>)
        ensures
            match last_digest(packages_spec(projects_view(self.projects@), work_uid@), item_uid@) {
                Some(x) => d.is_some() && d.unwrap()@ == x,
                None => d.is_none(),
            },
    {
        let ps = self.packages(work_uid);
        let ghost pv = packages_view(ps@);
        let mut i: usize = ps.len();
        assert(pv.take(pv.len() as int) == pv);
        while i > 0
            invariant
                0 <= i <= ps@.len(),
                pv == packages_view(ps@),
                pv == packages_spec(projects_view(self.projects@), work_uid@),
                last_digest(pv, item_uid@) == last_digest(pv.take(i as int), item_uid@),
            decreases i,
        {
            let p = &ps[i - 1];
            let ghost rows = p@.rows;
            let mut j: usize = 0;
            proof {
                assert(pv[i - 1] == ps@[i - 1]@);
                assert(pv.take(i as int).last() == p@);
                assert(pv.take(i as int).drop_last() == pv.take(i - 1));
                assert(rows.skip(0) == rows);
            }
            while j < p.rows.len()
                invariant
                    0 <= j <= p.rows@.len(),
                    rows == p@.rows,
                    0 < i <= ps@.len(),
                    pv == packages_view(ps@),
                    pv == packages_spec(projects_view(self.projects@), work_uid@),
                    last_digest(pv, item_uid@) == last_digest(pv.take(i as int), item_uid@),
                    pv.take(i as int).last().rows == rows,
                    digest_in(rows, item_uid@) == digest_in(rows.skip(j as int), item_uid@),
                decreases p.rows@.len() - j,
            {
                proof {
                    assert(rows.skip(j as int).drop_first() == rows.skip(j as int + 1));
                    assert(rows.skip(j as int)[0] == row_view(p.rows@[j as int]));
                }
                if str_eq(p.rows[j].item_uid.as_str(), item_uid) {
                    let d = p.rows[j].digest.clone();
                    assert(digest_in(rows.skip(j as int), item_uid@) == Some(d@));
                    assert(last_digest(pv.take(i as int), item_uid@) == Some(d@));
                    return Some(d);
                }
                j = j + 1;
            }
            i = i - 1;
        }
        assert(pv.take(0) == Seq::<PackageView>::empty());
        None
    }

    /// Whether the comment `comment_uid` travelled in any package sent from the
    /// project `work_uid`.
    pub fn was_sent(&self, work_uid: &str, comment_uid: &str) -> (b: bool)
        ensures
            b == exists|k: int|
                #![trigger packages_spec(projects_view(self.projects@), work_uid@)[k]]
                0 <= k < packages_spec(projects_view(self.projects@), work_uid@).len()
                    && packages_spec(projects_view(self.projects@), work_uid@)[k].comment_uids.contains(
                    comment_uid@,
                ),
    {
        let ps = self.packages(work_uid);
        let ghost pv = packages_view(ps@);
        let mut i: usize = 0;
        while i < ps.len()
            invariant
                0 <= i <= ps@.len(),
                pv == packages_view(ps@),
                pv == packages_spec(projects_view(self.projects@), work_uid@),
                forall|k: int| 0 <= k < i ==> !(#[trigger] pv[k]).comment_uids.contains(comment_uid@),
            decreases ps@.len() - i,
        {
            let p = &ps[i];
            assert(pv[i as int] == ps@[i as int]@);
            let mut j: usize = 0;
            while j < p.comment_uids.len()
                invariant
                    0 <= j <= p.comment_uids@.len(),
                    0 <= i < ps@.len(),
                    pv == packages_view(ps@),
                    pv == packages_spec(projects_view(self.projects@), work_uid@),
                    pv[i as int] == ps@[i as int]@,
                    p == ps@[i as int],
                    forall|m: int| 0 <= m < j ==> p.comment_uids@[m]@ != comment_uid@,
                decreases p.comment_uids@.len() - j,
            {
                if str_eq(p.comment_uids[j].as_str(), comment_uid) {
                    assert(pv[i as int].comment_uids[j as int] == p.comment_uids@[j as int]@);
                    assert(pv[i as int].comment_uids.contains(comment_uid@));
                    return true;
                }
                j = j + 1;
            }
            assert(!pv[i as int].comment_uids.contains(comment_uid@)) by {
                if pv[i as int].comment_uids.contains(comment_uid@) {
                    let m = choose|m: int| 0 <= m < pv[i as int].comment_uids.len() && pv[i as int].comment_uids[m] == comment_uid@;
                    assert(p.comment_uids@[m]@ == comment_uid@);
                }
            }
            i = i + 1;
        }
        false
    }
}


proof fn lemma_project_pos_facts(ps: Seq<ProjectView>, uid: Seq<char>)
    ensures
        -1 <= project_pos(ps, uid) < ps.len(),
        project_pos(ps, uid) >= 0 ==> ps[project_pos(ps, uid)].work_uid == uid,
        forall|k: int| 0 <= k < project_pos(ps, uid) ==> (#[trigger] ps[k]).work_uid != uid,
        project_pos(ps, uid) < 0 ==> forall|k: int| 0 <= k < ps.len() ==> (#[trigger] ps[k]).work_uid != uid,
    decreases ps.len(),
{
    if ps.len() > 0 && ps[0].work_uid != uid {
        let t = ps.drop_first();
        lemma_project_pos_facts(t, uid);
        assert forall|k: int| 0 <= k < ps.len() && k < project_pos(ps, uid) implies (#[trigger] ps[k]).work_uid != uid by {
            if k > 0 {
                assert(ps[k] == t[k - 1]);
            }
        }
        if project_pos(ps, uid) < 0 {
            assert forall|k: int| 0 <= k < ps.len() implies (#[trigger] ps[k]).work_uid != uid by {
                if k > 0 {
                    assert(ps[k] == t[k - 1]);
                }
            }
        } else {
            assert(ps[project_pos(ps, uid)] == t[project_pos(t, uid)]);
        }
    }
}

/// Whether no two projects share a uid, as a file written by `record` never
/// has them.
pub open spec fn uids_distinct(ps: Seq<ProjectView>) -> bool {
    forall|i: int, j: int| 0 <= i < j < ps.len() ==> (#[trigger] ps[i]).work_uid != (#[trigger] ps[j]).work_uid
}

proof fn lemma_project_pos_of(ps: Seq<ProjectView>, uid: Seq<char>, at: int)
    requires
        0 <= at < ps.len(),
        ps[at].work_uid == uid,
        forall|k: int| 0 <= k < ps.len() && k != at ==> (#[trigger] ps[k]).work_uid != uid,
    ensures
        project_pos(ps, uid) == at,
{
    lemma_project_pos(ps, uid, at);
}

/// Removing the project with uid `uid` leaves where any other uid is found,
/// and what is found there.
proof fn lemma_others_keep(ps: Seq<ProjectView>, uid: Seq<char>, other: Seq<char>)
    requires
        other != uid,
    ensures
        (project_pos(others(ps, uid), other) >= 0) == (project_pos(ps, other) >= 0),
        project_pos(ps, other) >= 0 ==> others(ps, uid)[project_pos(others(ps, uid), other)] == ps[project_pos(ps, other)],
{
    lemma_project_pos_facts(ps, uid);
    lemma_project_pos_facts(ps, other);
    let k = project_pos(ps, uid);
    if k >= 0 {
        let o = ps.remove(k);
        let a = project_pos(ps, other);
        if a >= 0 {
            assert(a != k);
            let a2 = if a < k { a } else { a - 1 };
            assert(o[a2] == ps[a]);
            assert forall|j: int| 0 <= j < a2 implies (#[trigger] o[j]).work_uid != other by {
                if j < k {
                    assert(o[j] == ps[j]);
                } else {
                    assert(o[j] == ps[j + 1]);
                }
            }
            lemma_project_pos(o, other, a2);
        } else {
            assert forall|j: int| 0 <= j < o.len() implies (#[trigger] o[j]).work_uid != other by {
                if j < k {
                    assert(o[j] == ps[j]);
                } else {
                    assert(o[j] == ps[j + 1]);
                }
            }
            lemma_project_pos(o, other, o.len() as int);
        }
    }
}

/// A package just recorded can be read back: the project is the newest and
/// keeps it as its newest package, so the digest each of its rows left with
/// is the one read back for that row, and each comment that travelled with it
/// reads as sent. The project just written is never the one the cap evicts.
pub proof fn law_recorded_package_reads_back(
    ps: Seq<ProjectView>,
    uid: Seq<char>,
    title: Seq<char>,
    package: PackageView,
    item: Seq<char>,
)
    requires
        has_non_space(uid),
        package.rows.len() > 0,
        uids_distinct(ps),
    ensures
        ({
            let out = recorded(ps, uid, title, package);
            let after = packages_spec(out, uid);
            &&& out.len() > 0
            &&& out.last().work_uid == uid
            &&& after.len() > 0
            &&& after.last() == package
            &&& digest_in(package.rows, item) is Some ==> last_digest(after, item) == digest_in(
                package.rows,
                item,
            )
            &&& forall|c: Seq<char>| package.comment_uids.contains(c) ==> exists|k: int|
                0 <= k < after.len() && (#[trigger] after[k]).comment_uids.contains(c)
        }),
{
    lemma_project_pos_facts(ps, uid);
    let k = project_pos(ps, uid);
    let p = touched_project(ps, uid);
    let o = others(ps, uid);
    let newp = ProjectView {
        title: title,
        packages: keep_newest(p.packages.push(package), MAX_PACKAGES as nat),
        ..p
    };
    assert(p.work_uid == uid);
    assert forall|j: int| 0 <= j < o.len() implies (#[trigger] o[j]).work_uid != uid by {
        if k >= 0 {
            if j < k {
                assert(o[j] == ps[j]);
            } else {
                assert(o[j] == ps[j + 1]);
            }
        }
    }
    let pushed = o.push(newp);
    let out = keep_newest(pushed, MAX_PROJECTS as nat);
    assert(out == recorded(ps, uid, title, package));
    let d = pushed.len() - out.len();
    assert(forall|j: int| 0 <= j < out.len() ==> out[j] == pushed[j + d]);
    assert(out[out.len() - 1] == newp);
    assert forall|j: int| 0 <= j < out.len() && j != out.len() - 1 implies (#[trigger] out[j]).work_uid != uid by {
        assert(out[j] == pushed[j + d]);
        assert(pushed[j + d] == o[j + d]);
    }
    lemma_project_pos_of(out, uid, out.len() - 1);
    let after = newp.packages;
    assert(packages_spec(out, uid) == after);
    assert(after.len() > 0 && after.last() == package);
    if digest_in(package.rows, item) is Some {
        assert(last_digest(after, item) == digest_in(package.rows, item));
    }
    assert forall|c: Seq<char>| package.comment_uids.contains(c) implies exists|j: int|
        0 <= j < after.len() && (#[trigger] after[j]).comment_uids.contains(c) by {
        assert(after[after.len() - 1] == package);
    }
}

/// Two projects never clobber each other: recording a package against one
/// leaves what every other project reads back as it was, while the file holds
/// fewer projects than it keeps.
pub proof fn law_recording_leaves_other_projects(
    ps: Seq<ProjectView>,
    uid: Seq<char>,
    title: Seq<char>,
    package: PackageView,
    other: Seq<char>,
)
    requires
        other != uid,
        ps.len() < MAX_PROJECTS,
    ensures
        packages_spec(recorded(ps, uid, title, package), other) == packages_spec(ps, other),
{
    lemma_project_pos_facts(ps, uid);
    lemma_others_keep(ps, uid, other);
    let p = touched_project(ps, uid);
    let o = others(ps, uid);
    let newp = ProjectView {
        title: title,
        packages: keep_newest(p.packages.push(package), MAX_PACKAGES as nat),
        ..p
    };
    assert(p.work_uid == uid);
    let pushed = o.push(newp);
    assert(pushed.len() <= MAX_PROJECTS);
    assert(recorded(ps, uid, title, package) == pushed);
    lemma_project_pos_facts(o, other);
    let b = project_pos(o, other);
    if b >= 0 {
        assert forall|j: int| 0 <= j < b implies (#[trigger] pushed[j]).work_uid != other by {
            assert(pushed[j] == o[j]);
        }
        assert(pushed[b] == o[b]);
        lemma_project_pos(pushed, other, b);
    } else {
        assert forall|j: int| 0 <= j < pushed.len() implies (#[trigger] pushed[j]).work_uid != other by {
            if j < o.len() {
                assert(pushed[j] == o[j]);
            }
        }
        lemma_project_pos(pushed, other, pushed.len() as int);
    }
}

/// Eviction goes by touch order: recording against a project makes it the
/// newest, and when the file holds more than it keeps, the projects dropped
/// are the least recently recorded.
pub proof fn law_recording_makes_the_project_newest(
    ps: Seq<ProjectView>,
    uid: Seq<char>,
    title: Seq<char>,
    package: PackageView,
)
    ensures
        ({
            let out = recorded(ps, uid, title, package);
            &&& out.len() > 0
            &&& out.last().work_uid == uid
            &&& out.len() == if others(ps, uid).len() + 1 > MAX_PROJECTS {
                MAX_PROJECTS as int
            } else {
                others(ps, uid).len() + 1int
            }
            &&& out.drop_last() == others(ps, uid).skip(others(ps, uid).len() + 1 - out.len())
        }),
{
    lemma_project_pos_facts(ps, uid);
    let p = touched_project(ps, uid);
    let o = others(ps, uid);
    let newp = ProjectView {
        title: title,
        packages: keep_newest(p.packages.push(package), MAX_PACKAGES as nat),
        ..p
    };
    let out = recorded(ps, uid, title, package);
    assert(out.drop_last() =~= o.skip(o.len() + 1 - out.len()));
}


/// A package's digest for an item is the one its first row for that item
/// carries: none when no row is for the item.
pub proof fn law_a_package_gives_its_first_row_for_the_item(rows: Seq<(Seq<char>, Seq<char>)>, item: Seq<char>)
    ensures
        (digest_in(rows, item) is None) == (forall|i: int| 0 <= i < rows.len() ==> (#[trigger] rows[i]).0 != item),
        digest_in(rows, item) is Some ==> exists|i: int|
            0 <= i < rows.len() && (#[trigger] rows[i]).0 == item && rows[i].1 == digest_in(rows, item).unwrap()
                && forall|j: int| 0 <= j < i ==> (#[trigger] rows[j]).0 != item,
    decreases rows.len(),
{
    if rows.len() > 0 {
        let rest = rows.drop_first();
        law_a_package_gives_its_first_row_for_the_item(rest, item);
        assert forall|i: int| 0 < i < rows.len() implies #[trigger] rows[i] == rest[i - 1] by {}
        if rows[0].0 != item {
            if digest_in(rows, item) is None {
                assert forall|i: int| 0 <= i < rows.len() implies (#[trigger] rows[i]).0 != item by {
                    if i > 0 {
                        assert(rows[i] == rest[i - 1]);
                    }
                }
            } else {
                let i = choose|i: int|
                    0 <= i < rest.len() && (#[trigger] rest[i]).0 == item && rest[i].1 == digest_in(rest, item).unwrap()
                        && forall|j: int| 0 <= j < i ==> (#[trigger] rest[j]).0 != item;
                assert(rows[i + 1] == rest[i]);
                assert forall|j: int| 0 <= j < i + 1 implies (#[trigger] rows[j]).0 != item by {
                    if j > 0 {
                        assert(rows[j] == rest[j - 1]);
                    }
                }
            }
            if forall|i: int| 0 <= i < rows.len() ==> (#[trigger] rows[i]).0 != item {
                assert forall|i: int| 0 <= i < rest.len() implies (#[trigger] rest[i]).0 != item by {
                    assert(rest[i] == rows[i + 1]);
                }
            }
        }
    }
}

/// The digest an item last went out with comes from the newest package that
/// carried it, however old: none exactly when no package carried it, and
/// otherwise the digest of some package that carried it, with no newer
/// package carrying it.
pub proof fn law_the_newest_package_carrying_the_item_answers(ps: Seq<PackageView>, item: Seq<char>)
    ensures
        (last_digest(ps, item) is None) == (forall|k: int| 0 <= k < ps.len() ==> digest_in(#[trigger] ps[k].rows, item) is None),
        last_digest(ps, item) is Some ==> exists|k: int|
            0 <= k < ps.len() && digest_in(#[trigger] ps[k].rows, item) == last_digest(ps, item) && forall|m: int|
                k < m < ps.len() ==> digest_in(#[trigger] ps[m].rows, item) is None,
    decreases ps.len(),
{
    if ps.len() > 0 {
        let pre = ps.drop_last();
        let last = ps.len() - 1;
        law_the_newest_package_carrying_the_item_answers(pre, item);
        assert forall|k: int| 0 <= k < last implies #[trigger] ps[k] == pre[k] by {}
        match digest_in(ps.last().rows, item) {
            Some(d) => {
                assert(digest_in(ps[last].rows, item) == last_digest(ps, item));
            },
            None => {
                assert(last_digest(ps, item) == last_digest(pre, item));
                if last_digest(pre, item) is None {
                    assert forall|k: int| 0 <= k < ps.len() implies digest_in(#[trigger] ps[k].rows, item) is None by {
                        if k < last {
                            assert(ps[k] == pre[k]);
                        }
                    }
                } else {
                    let k = choose|k: int|
                        0 <= k < pre.len() && digest_in(#[trigger] pre[k].rows, item) == last_digest(pre, item)
                            && forall|m: int| k < m < pre.len() ==> digest_in(#[trigger] pre[m].rows, item) is None;
                    assert(ps[k] == pre[k]);
                    assert forall|m: int| k < m < ps.len() implies digest_in(#[trigger] ps[m].rows, item) is None by {
                        if m < last {
                            assert(ps[m] == pre[m]);
                        }
                    }
                    assert(digest_in(pre[k].rows, item) is Some);
                }
                if forall|k: int| 0 <= k < ps.len() ==> digest_in(#[trigger] ps[k].rows, item) is None {
                    assert forall|k: int| 0 <= k < pre.len() implies digest_in(#[trigger] pre[k].rows, item) is None by {
                        assert(pre[k] == ps[k]);
                    }
                }
            },
        }
    }
}

} // verus!
