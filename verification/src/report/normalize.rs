//! The plan that brings locale files into their normal form.
//!
//! Nothing here reads or writes a file: the plan says what each file should
//! hold, and is then compared with what the files hold.
use crate::config::Config;
use crate::data::emit::{emit_locale, emitted, inserted, sorted_level, Level, Tree};
use crate::data::load::LocaleTree;
use crate::data::route::{
    a_key_goes_to_exactly_one_file, grouped, origin_paths, origins, routable, route_filtered,
    routed, routing, Destination, RouteV,
};
use crate::data::store::Store;
use crate::paths::{is_same_path, key_of_path, path_key, relative_to, same_path, seen_from};
use crate::report::Outcome;
use crate::text::{
    concat, decimal, decimal_text, distinct, distinct_is_unique, join, join_of, push_text,
    same_text, texts,
};
use crate::textmap::{items_at, listed, TextMap};
use similar::TextDiff;
use vstd::prelude::*;

verus! {

/// What happens to a file.
#[derive(Debug, Clone, Copy, PartialEq, Eq, Structural)]
pub enum Action {
    Create,
    Update,
    /// The file held only keys that have moved elsewhere, so it ends up empty.
    Delete,
}

/// One file that changes.
pub struct FileChange {
    /// The path as reports print it: relative to the root where it can be,
    /// slashes normalised. Rendering only, never the target of a write.
    pub display: String,
    /// The path that is written, exactly as the router produced it.
    pub path: String,
    pub locale: String,
    pub action: Action,
    /// The text to write. Empty for a deletion.
    pub after: String,
    pub before: String,
}

/// What a [`FileChange`] holds.
pub struct FileChangeV {
    pub display: Seq<char>,
    pub path: Seq<char>,
    pub locale: Seq<char>,
    pub action: Action,
    pub after: Seq<char>,
    pub before: Seq<char>,
}

impl View for FileChange {
    type V = FileChangeV;

    open spec fn view(&self) -> FileChangeV {
        FileChangeV {
            display: self.display@,
            path: self.path@,
            locale: self.locale@,
            action: self.action,
            after: self.after@,
            before: self.before@,
        }
    }
}

/// What a list of changes holds.
pub open spec fn changes_model(v: Seq<FileChange>) -> Seq<FileChangeV> {
    Seq::new(v.len(), |i: int| v[i]@)
}

/// The changes that a plan makes.
pub struct NormalizeReport {
    pub changes: Vec<FileChange>,
    /// Every destination the router produced, changed or not.
    pub files_routed: usize,
}

/// What a file should hold; `None` where it is to be deleted.
pub struct PlannedFile {
    pub path: String,
    pub locale: String,
    pub after: Option<String>,
}

/// What a [`PlannedFile`] holds.
pub struct PlannedFileV {
    pub path: Seq<char>,
    pub locale: Seq<char>,
    pub after: Option<Seq<char>>,
}

impl View for PlannedFile {
    type V = PlannedFileV;

    open spec fn view(&self) -> PlannedFileV {
        PlannedFileV {
            path: self.path@,
            locale: self.locale@,
            after: match self.after {
                Some(s) => Some(s@),
                None => None,
            },
        }
    }
}

/// What a list of planned files holds.
pub open spec fn planned_model(v: Seq<PlannedFile>) -> Seq<PlannedFileV> {
    Seq::new(v.len(), |i: int| v[i]@)
}

// --------------------------------------------------------------- what a file holds

/// The level that the leaves of the first `n` keys make.
pub open spec fn built_upto(tree: LocaleTree, keys: Seq<Seq<char>>, n: int) -> Level
    decreases n,
{
    if n <= 0 {
        Seq::empty()
    } else {
        let before = built_upto(tree, keys, n - 1);
        match tree.found(keys[n - 1]) {
            Some(leaf) => inserted(before, leaf.segments(), leaf.value),
            None => before,
        }
    }
}

/// What a file with these keys of the locale holds.
pub open spec fn file_text(
    keep_order: bool,
    locale: Seq<char>,
    tree: LocaleTree,
    keys: Seq<Seq<char>>,
) -> Seq<char> {
    let built = built_upto(tree, keys, keys.len() as int);
    emitted(
        locale,
        if keep_order {
            built
        } else {
            sorted_level(built)
        },
    )
}

fn render_file(keep_order: bool, locale: &str, tree: &LocaleTree, keys: &Vec<String>) -> (out:
    String)
    requires
        tree.wf(),
    ensures
        out@ == file_text(keep_order, locale@, *tree, texts(keys@)),
{
    let ghost model = texts(keys@);
    let mut level = Tree::new();
    let mut i: usize = 0;
    while i < keys.len()
        invariant
            i <= keys.len(),
            tree.wf(),
            model == texts(keys@),
            level@ == built_upto(*tree, model, i as int),
        decreases keys.len() - i,
    {
        assert(model[i as int] == keys@[i as int]@);
        if let Some(leaf) = tree.get(&keys[i]) {
            level.insert_segments(&leaf.segments(), leaf.value.clone());
        }
        i = i + 1;
    }
    assert(model.len() == keys.len());
    if !keep_order {
        level.sort();
    }
    emit_locale(locale, &level)
}

// -------------------------------------------------------------------- the guards

/// The first `n` locales other than this one.
pub open spec fn others_upto(found: Seq<Seq<char>>, locale: Seq<char>, n: int) -> Seq<Seq<char>>
    decreases n,
{
    if n <= 0 {
        Seq::empty()
    } else if found[n - 1] == locale {
        others_upto(found, locale, n - 1)
    } else {
        others_upto(found, locale, n - 1).push(found[n - 1])
    }
}

/// The other locales that the file holds.
pub open spec fn foreign_locales(tree: LocaleTree, path: Seq<char>, locale: Seq<char>) -> Seq<
    Seq<char>,
> {
    let found = listed(tree.file_locales@, path_key(path));
    others_upto(found, locale, found.len() as int)
}

/// The message for a file that holds other locales too.
pub open spec fn foreign_message(
    path: Seq<char>,
    foreign: Seq<Seq<char>>,
    locale: Seq<char>,
) -> Seq<char> {
    path + " holds the locale(s) "@ + join_of(foreign, ", "@) + " as well as `"@ + locale
        + "`. Writing one locale per file would drop them. Split the file by locale first."@
}

fn check_foreign_locales(tree: &LocaleTree, path: &str, locale: &str) -> (r: Result<(), String>)
    ensures
        match r {
            Ok(_) => foreign_locales(*tree, path@, locale@).len() == 0,
            Err(e) => {
                let foreign = foreign_locales(*tree, path@, locale@);
                foreign.len() > 0 && e@ == foreign_message(path@, foreign, locale@)
            },
        },
{
    let key = key_of_path(path);
    let mut foreign: Vec<String> = Vec::new();
    let ghost found = listed(tree.file_locales@, path_key(path@));
    assert(texts(foreign@) =~= Seq::empty());
    if let Some(all) = tree.file_locales.get(&key) {
        let mut i: usize = 0;
        assert(found.len() == all.len());
        while i < all.len()
            invariant
                i <= all.len(),
                found == texts(all@),
                texts(foreign@) == others_upto(found, locale@, i as int),
            decreases all.len() - i,
        {
            assert(found[i as int] == all@[i as int]@);
            if !same_text(&all[i], locale) {
                push_text(&mut foreign, all[i].clone());
            }
            i = i + 1;
        }
    }
    assert(texts(foreign@).len() == foreign.len());
    if foreign.len() == 0 {
        return Ok(());
    }
    let mut message = concat(path, " holds the locale(s) ");
    message.append(&join(&foreign, ", "));
    message.append(" as well as `");
    message.append(locale);
    message.append(
        "`. Writing one locale per file would drop them. Split the file by locale first.",
    );
    Err(message)
}

/// The message for a file that two locales go to.
pub open spec fn claimed_message(
    path: Seq<char>,
    other: Seq<char>,
    locale: Seq<char>,
) -> Seq<char> {
    path + " is the destination for both `"@ + other + "` and `"@ + locale
        + "`. A locale file holds one locale, so the second write would erase the first. Fix `data.write` so each locale routes to its own file."@
}

// ---------------------------------------------------------------------- the plan

/// The files planned so far, and the locale that claims each.
pub struct PlanV {
    pub files: Seq<PlannedFileV>,
    pub claimed: Map<Seq<char>, Seq<char>>,
}

/// The plan with the first `n` destinations of a locale.
pub open spec fn with_destinations(
    keep_order: bool,
    locale: Seq<char>,
    tree: LocaleTree,
    dests: Seq<Destination>,
    n: int,
    before: PlanV,
) -> Result<PlanV, Seq<char>>
    decreases n,
{
    if n <= 0 {
        Ok(before)
    } else {
        match with_destinations(keep_order, locale, tree, dests, n - 1, before) {
            Err(e) => Err(e),
            Ok(now) => {
                let path = dests[n - 1].path@;
                let foreign = foreign_locales(tree, path, locale);
                if now.claimed.contains_key(path_key(path)) {
                    Err(claimed_message(path, now.claimed[path_key(path)], locale))
                } else if foreign.len() > 0 {
                    Err(foreign_message(path, foreign, locale))
                } else {
                    Ok(
                        PlanV {
                            files: now.files.push(
                                PlannedFileV {
                                    path,
                                    locale,
                                    after: Some(
                                        file_text(
                                            keep_order,
                                            locale,
                                            tree,
                                            texts(dests[n - 1].keys@),
                                        ),
                                    ),
                                },
                            ),
                            claimed: now.claimed.insert(path_key(path), locale),
                        },
                    )
                }
            },
        }
    }
}

/// One of the destinations has the path.
pub open spec fn is_written(dests: Seq<Destination>, path: Seq<char>) -> bool {
    exists|i: int| 0 <= i < dests.len() && same_path((#[trigger] dests[i]).path@, path)
}

/// The plan with the deletion of those of the first `n` origins that no
/// destination has.
pub open spec fn with_deletions(
    locale: Seq<char>,
    tree: LocaleTree,
    dests: Seq<Destination>,
    origin: Seq<Seq<char>>,
    n: int,
    before: PlanV,
) -> Result<PlanV, Seq<char>>
    decreases n,
{
    if n <= 0 {
        Ok(before)
    } else {
        match with_deletions(locale, tree, dests, origin, n - 1, before) {
            Err(e) => Err(e),
            Ok(now) => {
                let path = origin[n - 1];
                let foreign = foreign_locales(tree, path, locale);
                if is_written(dests, path) {
                    Ok(now)
                } else if foreign.len() > 0 {
                    Err(foreign_message(path, foreign, locale))
                } else {
                    Ok(
                        PlanV {
                            files: now.files.push(PlannedFileV { path, locale, after: None }),
                            ..now
                        },
                    )
                }
            },
        }
    }
}

/// The plan with one more locale: what its destinations hold, and then the
/// files of its keys that are left empty.
pub open spec fn with_locale(
    keep_order: bool,
    locale: Seq<char>,
    tree: LocaleTree,
    dests: Seq<Destination>,
    origin: Seq<Seq<char>>,
    before: PlanV,
) -> Result<PlanV, Seq<char>> {
    match with_destinations(keep_order, locale, tree, dests, dests.len() as int, before) {
        Err(e) => Err(e),
        Ok(now) => with_deletions(locale, tree, dests, origin, origin.len() as int, now),
    }
}

/// The keys of a locale that the plan leaves out.
pub open spec fn skipped(skip: Map<Seq<char>, TextMap<()>>, locale: Seq<char>) -> Map<
    Seq<char>,
    (),
> {
    if skip.contains_key(locale) {
        skip[locale]@
    } else {
        Map::empty()
    }
}

/// What a plan is made from.
pub struct PlanningV {
    pub cfg: Config,
    pub store: Store,
    pub force_pattern: bool,
    pub skip: Map<Seq<char>, TextMap<()>>,
}

impl PlanningV {
    /// `after` is the plan `before` with the locale: its keys are routed, or
    /// the first key that cannot be is the error.
    pub open spec fn adds(
        self,
        locale: Seq<char>,
        before: PlanV,
        after: Result<PlanV, Seq<char>>,
    ) -> bool {
        exists|dests: Result<Vec<Destination>, String>, origin: Seq<Seq<char>>| #[trigger]
            self.adds_by(locale, before, after, dests, origin)
    }

    /// `after` is the plan `before` with the destinations and the origins of the
    /// locale.
    pub open spec fn adds_by(
        self,
        locale: Seq<char>,
        before: PlanV,
        after: Result<PlanV, Seq<char>>,
        dests: Result<Vec<Destination>, String>,
        origin: Seq<Seq<char>>,
    ) -> bool {
        &&& routed(
            dests,
            &self.cfg,
            &self.store,
            locale,
            self.force_pattern,
            skipped(self.skip, locale),
        )
        &&& match dests {
            Err(e) => after == Err::<PlanV, Seq<char>>(e@),
            Ok(v) => {
                let tree = self.store.trees@[locale];
                &&& origins(origin, tree.data())
                &&& after == with_locale(
                    self.cfg@.data.keep_order,
                    locale,
                    tree,
                    v@,
                    origin,
                    before,
                )
            },
        }
    }

    /// `plan` is the plan of the first `n` locales, or the first error.
    pub open spec fn plans(
        self,
        locales: Seq<Seq<char>>,
        n: nat,
        plan: Result<PlanV, Seq<char>>,
    ) -> bool
        decreases n,
    {
        if n == 0 {
            plan == Ok::<PlanV, Seq<char>>(
                PlanV { files: Seq::empty(), claimed: Map::empty() },
            )
        } else {
            exists|before: Result<PlanV, Seq<char>>| #[trigger]
                self.follows(locales[n - 1], before, plan) && self.plans(
                    locales,
                    (n - 1) as nat,
                    before,
                )
        }
    }

    /// `plan` is what the locale makes of the plan `before`: an error stays.
    pub open spec fn follows(
        self,
        locale: Seq<char>,
        before: Result<PlanV, Seq<char>>,
        plan: Result<PlanV, Seq<char>>,
    ) -> bool {
        match before {
            Err(e) => plan == before,
            Ok(p) => self.adds(locale, p, plan),
        }
    }

    proof fn next(
        self,
        locales: Seq<Seq<char>>,
        n: nat,
        before: PlanV,
        after: Result<PlanV, Seq<char>>,
    )
        requires
            self.plans(locales, n, Ok(before)),
            self.adds(locales[n as int], before, after),
        ensures
            self.plans(locales, n + 1, after),
    {
        let p = Ok::<PlanV, Seq<char>>(before);
        assert(self.follows(locales[n as int], p, after));
        assert(self.plans(locales, (n + 1 - 1) as nat, p));
    }

    proof fn error_stays(self, locales: Seq<Seq<char>>, n: nat, m: nat, e: Seq<char>)
        requires
            n <= m,
            self.plans(locales, n, Err(e)),
        ensures
            self.plans(locales, m, Err(e)),
        decreases m,
    {
        if n < m {
            self.error_stays(locales, n, (m - 1) as nat, e);
            let before = Err::<PlanV, Seq<char>>(e);
            assert(self.follows(locales[m - 1], before, before));
        }
    }
}

/// The locales that claim paths, as texts.
pub open spec fn claims(m: Map<Seq<char>, String>) -> Map<Seq<char>, Seq<char>> {
    m.map_values(|s: String| s@)
}

/// What planned files, and the locales that claimed their paths, hold.
pub open spec fn plan_model(files: &Vec<PlannedFile>, claimed: &TextMap<String>) -> PlanV {
    PlanV { files: planned_model(files@), claimed: claims(claimed@) }
}

fn push_planned(files: &mut Vec<PlannedFile>, file: PlannedFile)
    ensures
        planned_model(final(files)@) == planned_model(old(files)@).push(file@),
{
    let ghost f = file@;
    files.push(file);
    assert(planned_model(files@) =~= planned_model(old(files)@).push(f));
}

proof fn destination_error_stays(
    keep_order: bool,
    locale: Seq<char>,
    tree: LocaleTree,
    dests: Seq<Destination>,
    n: int,
    m: int,
    before: PlanV,
)
    requires
        n <= m,
        with_destinations(keep_order, locale, tree, dests, n, before) is Err,
    ensures
        with_destinations(keep_order, locale, tree, dests, m, before) == with_destinations(
            keep_order,
            locale,
            tree,
            dests,
            n,
            before,
        ),
    decreases m,
{
    if n < m && m > 0 {
        destination_error_stays(keep_order, locale, tree, dests, n, m - 1, before);
    }
}

proof fn deletion_error_stays(
    locale: Seq<char>,
    tree: LocaleTree,
    dests: Seq<Destination>,
    origin: Seq<Seq<char>>,
    n: int,
    m: int,
    before: PlanV,
)
    requires
        n <= m,
        with_deletions(locale, tree, dests, origin, n, before) is Err,
    ensures
        with_deletions(locale, tree, dests, origin, m, before) == with_deletions(
            locale,
            tree,
            dests,
            origin,
            n,
            before,
        ),
    decreases m,
{
    if n < m && m > 0 {
        deletion_error_stays(locale, tree, dests, origin, n, m - 1, before);
    }
}

fn add_destinations(
    keep_order: bool,
    locale: &str,
    tree: &LocaleTree,
    dests: &Vec<Destination>,
    files: &mut Vec<PlannedFile>,
    claimed: &mut TextMap<String>,
) -> (r: Result<(), String>)
    requires
        tree.wf(),
    ensures
        match r {
            Ok(_) => with_destinations(
                keep_order,
                locale@,
                *tree,
                dests@,
                dests.len() as int,
                plan_model(old(files), old(claimed)),
            ) == Ok::<PlanV, Seq<char>>(plan_model(final(files), final(claimed))),
            Err(e) => with_destinations(
                keep_order,
                locale@,
                *tree,
                dests@,
                dests.len() as int,
                plan_model(old(files), old(claimed)),
            ) == Err::<PlanV, Seq<char>>(e@),
        },
{
    let ghost first = plan_model(files, claimed);
    let mut i: usize = 0;
    while i < dests.len()
        invariant
            i <= dests.len(),
            tree.wf(),
            first == plan_model(old(files), old(claimed)),
            with_destinations(keep_order, locale@, *tree, dests@, i as int, first) == Ok::<
                PlanV,
                Seq<char>,
            >(plan_model(files, claimed)),
        decreases dests.len() - i,
    {
        let dest = &dests[i];
        let key = key_of_path(&dest.path);
        let ghost now = plan_model(files, claimed);
        let taken: Option<String> = match claimed.get(&key) {
            Some(other) => {
                let mut message = concat(&dest.path, " is the destination for both `");
                message.append(other);
                message.append("` and `");
                message.append(locale);
                message.append(
                    "`. A locale file holds one locale, so the second write would erase the first. Fix `data.write` so each locale routes to its own file.",
                );
                Some(message)
            },
            None => None,
        };
        if let Some(message) = taken {
            proof {
                destination_error_stays(
                    keep_order,
                    locale@,
                    *tree,
                    dests@,
                    i + 1,
                    dests.len() as int,
                    first,
                );
            }
            return Err(message);
        }
        if let Err(e) = check_foreign_locales(tree, &dest.path, locale) {
            proof {
                destination_error_stays(
                    keep_order,
                    locale@,
                    *tree,
                    dests@,
                    i + 1,
                    dests.len() as int,
                    first,
                );
            }
            return Err(e);
        }
        let after = render_file(keep_order, locale, tree, &dest.keys);
        push_planned(
            files,
            PlannedFile {
                path: dest.path.clone(),
                locale: locale.to_owned(),
                after: Some(after),
            },
        );
        claimed.insert(key, locale.to_owned());
        assert(claims(claimed@) =~= now.claimed.insert(path_key(dest.path@), locale@));
        i = i + 1;
    }
    Ok(())
}

fn written(dests: &Vec<Destination>, path: &str) -> (b: bool)
    ensures
        b == is_written(dests@, path@),
{
    let mut i: usize = 0;
    while i < dests.len()
        invariant
            i <= dests.len(),
            forall|j: int| 0 <= j < i ==> !same_path((#[trigger] dests@[j]).path@, path@),
        decreases dests.len() - i,
    {
        if is_same_path(&dests[i].path, path) {
            return true;
        }
        i = i + 1;
    }
    false
}

fn add_deletions(
    locale: &str,
    tree: &LocaleTree,
    dests: &Vec<Destination>,
    origin: &Vec<String>,
    files: &mut Vec<PlannedFile>,
    Ghost(claimed): Ghost<Map<Seq<char>, Seq<char>>>,
) -> (r: Result<(), String>)
    ensures
        match r {
            Ok(_) => with_deletions(
                locale@,
                *tree,
                dests@,
                texts(origin@),
                origin.len() as int,
                PlanV { files: planned_model(old(files)@), claimed },
            ) == Ok::<PlanV, Seq<char>>(PlanV { files: planned_model(final(files)@), claimed }),
            Err(e) => with_deletions(
                locale@,
                *tree,
                dests@,
                texts(origin@),
                origin.len() as int,
                PlanV { files: planned_model(old(files)@), claimed },
            ) == Err::<PlanV, Seq<char>>(e@),
        },
{
    let ghost model = texts(origin@);
    let ghost first = PlanV { files: planned_model(files@), claimed };
    let mut i: usize = 0;
    while i < origin.len()
        invariant
            i <= origin.len(),
            model == texts(origin@),
            first == (PlanV { files: planned_model(old(files)@), claimed }),
            with_deletions(locale@, *tree, dests@, model, i as int, first) == Ok::<
                PlanV,
                Seq<char>,
            >(PlanV { files: planned_model(files@), claimed }),
        decreases origin.len() - i,
    {
        let path = &origin[i];
        assert(model[i as int] == path@);
        if !written(dests, path) {
            if let Err(e) = check_foreign_locales(tree, path, locale) {
                proof {
                    deletion_error_stays(
                        locale@,
                        *tree,
                        dests@,
                        model,
                        i + 1,
                        origin.len() as int,
                        first,
                    );
                }
                return Err(e);
            }
            push_planned(
                files,
                PlannedFile { path: path.clone(), locale: locale.to_owned(), after: None },
            );
        }
        i = i + 1;
    }
    Ok(())
}

fn add_locale(
    cfg: &Config,
    store: &Store,
    locale: &str,
    force_pattern: bool,
    own: &TextMap<()>,
    files: &mut Vec<PlannedFile>,
    claimed: &mut TextMap<String>,
    Ghost(planning): Ghost<PlanningV>,
) -> (r: Result<(), String>)
    requires
        store.wf(),
        routable(cfg, store, locale@, force_pattern),
        planning.cfg == *cfg,
        planning.store == *store,
        planning.force_pattern == force_pattern,
        own@ == skipped(planning.skip, locale@),
    ensures
        match r {
            Ok(_) => planning.adds(
                locale@,
                plan_model(old(files), old(claimed)),
                Ok(plan_model(final(files), final(claimed))),
            ),
            Err(e) => planning.adds(locale@, plan_model(old(files), old(claimed)), Err(e@)),
        },
{
    let ghost before = plan_model(files, claimed);
    let dests = route_filtered(cfg, store, locale, force_pattern, own);
    let list = match &dests {
        Ok(list) => list,
        Err(e) => {
            assert(planning.adds_by(locale@, before, Err(e@), dests, Seq::empty()));
            return Err(e.clone());
        },
    };
    let tree = match store.tree(locale) {
        Some(tree) => tree,
        None => {
            return Err(concat(&concat("locale `", locale), "` has no data"));
        },
    };
    let origin = origin_paths(store, locale);
    let ghost from = texts(origin@);
    assert(from.len() == origin.len());
    if let Err(e) = add_destinations(cfg.data.keep_order, locale, tree, list, files, claimed) {
        assert(planning.adds_by(locale@, before, Err(e@), dests, from));
        return Err(e);
    }
    let ghost claims_now = claims(claimed@);
    if let Err(e) = add_deletions(locale, tree, list, &origin, files, Ghost(claims_now)) {
        assert(planning.adds_by(locale@, before, Err(e@), dests, from));
        return Err(e);
    }
    assert(planning.adds_by(
        locale@,
        before,
        Ok(plan_model(files, claimed)),
        dests,
        from,
    ));
    Ok(())
}

/// Works out what every destination file should hold.
///
/// Two guards protect data that would otherwise be dropped without a word: a
/// destination claimed by two locales in one run, and a file that holds a
/// locale outside this run.
pub fn plan(cfg: &Config, store: &Store, locales: &Vec<String>, force_pattern: bool) -> (r: Result<
    Vec<PlannedFile>,
    String,
>)
    requires
        store.wf(),
        forall|i: int|
            0 <= i < locales.len() ==> routable(
                cfg,
                store,
                #[trigger] texts(locales@)[i],
                force_pattern,
            ),
    ensures
        is_plan(r, cfg, store, texts(locales@), force_pattern, Map::empty()),
{
    plan_filtered(cfg, store, locales, force_pattern, &TextMap::new())
}

/// What planning the locales gives: the files, or the first error.
pub open spec fn is_plan(
    r: Result<Vec<PlannedFile>, String>,
    cfg: &Config,
    store: &Store,
    locales: Seq<Seq<char>>,
    force_pattern: bool,
    skip: Map<Seq<char>, TextMap<()>>,
) -> bool {
    let planning = PlanningV { cfg: *cfg, store: *store, force_pattern, skip };
    match r {
        Ok(files) => exists|p: PlanV|
            p.files == planned_model(files@) && #[trigger] planning.plans(
                locales,
                locales.len(),
                Ok(p),
            ),
        Err(e) => planning.plans(locales, locales.len(), Err(e@)),
    }
}

/// Works out the destination files after the keys in `skip` are left out.
pub fn plan_filtered(
    cfg: &Config,
    store: &Store,
    locales: &Vec<String>,
    force_pattern: bool,
    skip: &TextMap<TextMap<()>>,
) -> (r: Result<Vec<PlannedFile>, String>)
    requires
        store.wf(),
        forall|i: int|
            0 <= i < locales.len() ==> routable(
                cfg,
                store,
                #[trigger] texts(locales@)[i],
                force_pattern,
            ),
    ensures
        is_plan(r, cfg, store, texts(locales@), force_pattern, skip@),
{
    let ghost planning = PlanningV { cfg: *cfg, store: *store, force_pattern, skip: skip@ };
    let ghost names = texts(locales@);
    let nothing: TextMap<()> = TextMap::new();
    let mut files: Vec<PlannedFile> = Vec::new();
    let mut claimed: TextMap<String> = TextMap::new();
    let mut i: usize = 0;
    proof {
        assert(planned_model(files@) =~= Seq::empty());
        assert(claims(claimed@) =~= Map::empty());
        assert(names.len() == locales.len());
    }
    while i < locales.len()
        invariant
            i <= locales.len(),
            store.wf(),
            names == texts(locales@),
            names.len() == locales.len(),
            nothing@ == Map::<Seq<char>, ()>::empty(),
            planning == (PlanningV { cfg: *cfg, store: *store, force_pattern, skip: skip@ }),
            forall|i: int|
                0 <= i < locales.len() ==> routable(cfg, store, #[trigger] names[i], force_pattern),
            planning.plans(names, i as nat, Ok(plan_model(&files, &claimed))),
        decreases locales.len() - i,
    {
        let locale = &locales[i];
        assert(names[i as int] == locale@);
        assert(routable(cfg, store, names[i as int], force_pattern));
        let ghost before = plan_model(&files, &claimed);
        let own = match skip.get(locale) {
            Some(keys) => keys,
            None => &nothing,
        };
        match add_locale(
            cfg,
            store,
            locale,
            force_pattern,
            own,
            &mut files,
            &mut claimed,
            Ghost(planning),
        ) {
            Ok(_) => {
                proof {
                    planning.next(
                        names,
                        i as nat,
                        before,
                        Ok(plan_model(&files, &claimed)),
                    );
                }
            },
            Err(e) => {
                proof {
                    planning.next(names, i as nat, before, Err(e@));
                    planning.error_stays(names, (i + 1) as nat, names.len(), e@);
                }
                return Err(e);
            },
        }
        i = i + 1;
    }
    proof {
        let p = plan_model(&files, &claimed);
        assert(planning.plans(names, names.len(), Ok(p)));
    }
    Ok(files)
}

// ----------------------------------------------------------------- the changes

/// What a planned file changes; `current` is what the file holds now, `None`
/// where there is no file. A file that already holds its text changes nothing.
pub open spec fn change_of(
    root: Seq<char>,
    file: PlannedFileV,
    current: Option<Seq<char>>,
) -> Option<FileChangeV> {
    let before = match current {
        Some(s) => s,
        None => Seq::empty(),
    };
    match file.after {
        Some(after) => if current == Some(after) {
            None
        } else {
            Some(
                FileChangeV {
                    display: seen_from(file.path, root),
                    path: file.path,
                    locale: file.locale,
                    action: if current is Some {
                        Action::Update
                    } else {
                        Action::Create
                    },
                    after,
                    before,
                },
            )
        },
        None => Some(
            FileChangeV {
                display: seen_from(file.path, root),
                path: file.path,
                locale: file.locale,
                action: Action::Delete,
                after: Seq::empty(),
                before,
            },
        ),
    }
}

/// The changes of the first `n` files.
pub open spec fn changes_upto(
    root: Seq<char>,
    files: Seq<PlannedFileV>,
    current: Seq<Option<Seq<char>>>,
    n: int,
) -> Seq<FileChangeV>
    decreases n,
{
    if n <= 0 {
        Seq::empty()
    } else {
        match change_of(root, files[n - 1], current[n - 1]) {
            Some(c) => changes_upto(root, files, current, n - 1).push(c),
            None => changes_upto(root, files, current, n - 1),
        }
    }
}

/// How many of the first `n` files are destinations.
pub open spec fn routed_upto(files: Seq<PlannedFileV>, n: int) -> int
    decreases n,
{
    if n <= 0 {
        0
    } else {
        routed_upto(files, n - 1) + if files[n - 1].after is Some {
            1int
        } else {
            0int
        }
    }
}

/// The printed paths of changes.
pub open spec fn displays(v: Seq<FileChangeV>) -> Seq<Seq<char>> {
    Seq::new(v.len(), |i: int| v[i].display)
}

/// Those of the first `n` changes that print the path.
pub open spec fn changes_shown(v: Seq<FileChangeV>, n: int, display: Seq<char>) -> Seq<FileChangeV>
    decreases n,
{
    if n <= 0 {
        Seq::empty()
    } else if v[n - 1].display == display {
        changes_shown(v, n - 1, display).push(v[n - 1])
    } else {
        changes_shown(v, n - 1, display)
    }
}

/// The changes that print one of the first `n` paths, path by path.
pub open spec fn changes_by(v: Seq<FileChangeV>, paths: Seq<Seq<char>>, n: int) -> Seq<FileChangeV>
    decreases n,
{
    if n <= 0 {
        Seq::empty()
    } else {
        changes_by(v, paths, n - 1) + changes_shown(v, v.len() as int, paths[n - 1])
    }
}

/// The changes in the order of their printed paths.
pub open spec fn in_display_order(v: Seq<FileChangeV>) -> Seq<FileChangeV> {
    changes_by(v, distinct(displays(v)), distinct(displays(v)).len() as int)
}

/// What optional strings hold.
pub open spec fn contents(v: Seq<Option<String>>) -> Seq<Option<Seq<char>>> {
    Seq::new(
        v.len(),
        |i: int|
            match v[i] {
                Some(s) => Some(s@),
                None => None,
            },
    )
}

fn change(root: &str, file: &PlannedFile, current: &Option<String>) -> (r: Option<FileChange>)
    ensures
        ({
            let now = match *current {
                Some(s) => Some(s@),
                None => None,
            };
            match r {
                Some(c) => change_of(root@, file@, now) == Some(c@),
                None => change_of(root@, file@, now) is None,
            }
        }),
{
    let display = relative_to(&file.path, root);
    let before = match current {
        Some(s) => s.clone(),
        None => String::new(),
    };
    assert(current is None ==> before@ =~= Seq::empty());
    match &file.after {
        Some(after) => {
            let exists = current.is_some();
            if exists && same_text(&before, after) {
                return None;
            }
            Some(
                FileChange {
                    display,
                    path: file.path.clone(),
                    locale: file.locale.clone(),
                    action: if exists {
                        Action::Update
                    } else {
                        Action::Create
                    },
                    after: after.clone(),
                    before,
                },
            )
        },
        None => {
            let after = String::new();
            assert(after@ =~= Seq::empty());
            Some(
                FileChange {
                    display,
                    path: file.path.clone(),
                    locale: file.locale.clone(),
                    action: Action::Delete,
                    after,
                    before,
                },
            )
        },
    }
}

fn sort_changes(changes: Vec<FileChange>) -> (out: Vec<FileChange>)
    ensures
        changes_model(out@) == in_display_order(changes_model(changes@)),
{
    let ghost model = changes_model(changes@);
    let ghost all = changes@;
    let count = changes.len();
    let mut map: TextMap<Vec<FileChange>> = TextMap::new();
    let mut i: usize = 0;
    proof {
        assert forall|d: Seq<char>| changes_model(#[trigger] items_at(map@, d)) == changes_shown(
            model,
            0,
            d,
        ) by {
            assert(changes_model(items_at(map@, d)) =~= Seq::empty());
        }
    }
    let mut rest = changes;
    // Taken from the front by turning the list round once.
    let mut back: Vec<FileChange> = Vec::new();
    while rest.len() > 0
        invariant
            rest.len() <= all.len() == count,
            rest@ == all.take(rest.len() as int),
            back@ == all.skip(rest.len() as int).reverse(),
        decreases rest.len(),
    {
        let ghost n = rest.len() as int;
        if let Some(c) = rest.pop() {
            back.push(c);
            assert(all.skip(n - 1) =~= seq![all[n - 1]] + all.skip(n));
            assert(back@ =~= all.skip(n - 1).reverse());
            assert(rest@ =~= all.take(n - 1));
        }
    }
    assert(all.skip(0) =~= all);
    while back.len() > 0
        invariant
            i + back.len() == all.len() == count,
            back@ == all.skip(i as int).reverse(),
            model == changes_model(all),
            forall|d: Seq<char>|
                changes_model(#[trigger] items_at(map@, d)) == changes_shown(model, i as int, d),
            forall|d: Seq<char>| #[trigger]
                map@.contains_key(d) <==> exists|j: int|
                    0 <= j < i && (#[trigger] model[j]).display == d,
        decreases back.len(),
    {
        let ghost before = map@;
        if let Some(c) = back.pop() {
            assert(c == all[i as int]);
            assert(model[i as int] == c@);
            let ghost shown = c@;
            map.push_item(c.display.clone(), c);
            proof {
                assert(all.skip(i + 1) =~= all.skip(i as int).skip(1));
                assert(back@ =~= all.skip(i + 1).reverse());
                assert forall|d: Seq<char>| changes_model(#[trigger] items_at(map@, d))
                    == changes_shown(model, i + 1, d) by {
                    assert(changes_model(items_at(before, d)) == changes_shown(
                        model,
                        i as int,
                        d,
                    ));
                    if d == shown.display {
                        assert(changes_model(items_at(map@, d)) =~= changes_model(
                            items_at(before, d),
                        ).push(shown));
                    } else {
                        assert(items_at(map@, d) == items_at(before, d));
                    }
                }
                assert forall|d: Seq<char>| #[trigger] map@.contains_key(d) <==> exists|j: int|
                    0 <= j < i + 1 && (#[trigger] model[j]).display == d by {
                    if map@.contains_key(d) && d != shown.display {
                        assert(before.contains_key(d));
                    }
                    if exists|j: int| 0 <= j < i + 1 && (#[trigger] model[j]).display == d {
                        let j = choose|j: int|
                            0 <= j < i + 1 && (#[trigger] model[j]).display == d;
                        if j < i {
                            assert(before.contains_key(d));
                        }
                    }
                }
            }
            i = i + 1;
        }
    }
    let ghost order = map.order();
    let ghost found = map@;
    let entries = map.into_entries();
    proof {
        assert forall|d: Seq<char>|
            #![trigger order.contains(d)]
            order.contains(d) <==> displays(model).contains(d) by {
            assert(found.contains_key(d) <==> order.contains(d));
            if displays(model).contains(d) {
                let j = displays(model).index_of(d);
                assert(model[j].display == d);
            }
            if found.contains_key(d) {
                let j = choose|j: int|
                    0 <= j < all.len() && (#[trigger] model[j]).display == d;
                assert(displays(model)[j] == d);
            }
        }
        distinct_is_unique(order, displays(model));
        assert forall|k: int| 0 <= k < entries.len() implies changes_model(
            (#[trigger] entries@[k]).1@,
        ) == changes_shown(model, model.len() as int, order[k]) by {
            assert(items_at(found, order[k]) == entries@[k].1@);
        }
    }
    flatten_changes(entries, Ghost(model), Ghost(order))
}

fn flatten_changes(
    entries: Vec<(String, Vec<FileChange>)>,
    Ghost(model): Ghost<Seq<FileChangeV>>,
    Ghost(order): Ghost<Seq<Seq<char>>>,
) -> (out: Vec<FileChange>)
    requires
        entries.len() == order.len(),
        forall|i: int|
            0 <= i < entries.len() ==> changes_model((#[trigger] entries@[i]).1@) == changes_shown(
                model,
                model.len() as int,
                order[i],
            ),
    ensures
        changes_model(out@) == changes_by(model, order, order.len() as int),
{
    let ghost all = entries@;
    let count = entries.len();
    let mut entries = entries;
    let mut lists: Vec<Vec<FileChange>> = Vec::new();
    while entries.len() > 0
        invariant
            entries.len() <= all.len() == order.len(),
            entries@ == all.take(entries.len() as int),
            lists.len() + entries.len() == all.len(),
            forall|i: int|
                0 <= i < all.len() ==> changes_model((#[trigger] all[i]).1@) == changes_shown(
                    model,
                    model.len() as int,
                    order[i],
                ),
            forall|i: int|
                0 <= i < lists.len() ==> (#[trigger] lists@[i])@ == all[all.len() - 1 - i].1@,
        decreases entries.len(),
    {
        let ghost n = entries.len() as int;
        if let Some((_, list)) = entries.pop() {
            lists.push(list);
            assert(entries@ =~= all.take(n - 1));
        }
    }
    let mut out: Vec<FileChange> = Vec::new();
    let mut k: usize = 0;
    let ghost listed = lists@;
    assert(changes_model(out@) =~= Seq::empty());
    while lists.len() > 0
        invariant
            k + lists.len() == order.len() == all.len() == count,
            listed.len() == all.len(),
            lists@ == listed.take(lists.len() as int),
            forall|i: int|
                0 <= i < all.len() ==> changes_model((#[trigger] all[i]).1@) == changes_shown(
                    model,
                    model.len() as int,
                    order[i],
                ),
            forall|i: int|
                0 <= i < listed.len() ==> (#[trigger] listed[i])@ == all[all.len() - 1 - i].1@,
            changes_model(out@) == changes_by(model, order, k as int),
        decreases lists.len(),
    {
        let ghost before = changes_model(out@);
        let ghost n = lists.len() as int;
        if let Some(mut list) = lists.pop() {
            assert(list == listed[n - 1]);
            assert(list@ == all[k as int].1@);
            let ghost more = changes_model(list@);
            out.append(&mut list);
            assert(changes_model(out@) =~= before + more);
            assert(lists@ =~= listed.take(n - 1));
            k = k + 1;
        }
    }
    out
}

/// Compares a plan with what the files hold now: `current[i]` is what the file
/// of `planned[i]` holds, `None` where there is no file.
pub fn compare(root: &str, planned: &Vec<PlannedFile>, current: &Vec<Option<String>>) -> (r:
    NormalizeReport)
    requires
        planned.len() == current.len(),
    ensures
        changes_model(r.changes@) == in_display_order(
            changes_upto(
                root@,
                planned_model(planned@),
                contents(current@),
                planned.len() as int,
            ),
        ),
        r.files_routed == routed_upto(planned_model(planned@), planned.len() as int),
{
    let ghost files = planned_model(planned@);
    let ghost now = contents(current@);
    let mut changes: Vec<FileChange> = Vec::new();
    let mut files_routed: usize = 0;
    let mut i: usize = 0;
    assert(changes_model(changes@) =~= Seq::empty());
    while i < planned.len()
        invariant
            i <= planned.len() == current.len(),
            files == planned_model(planned@),
            now == contents(current@),
            files_routed <= i,
            files_routed == routed_upto(files, i as int),
            changes_model(changes@) == changes_upto(root@, files, now, i as int),
        decreases planned.len() - i,
    {
        let file = &planned[i];
        assert(files[i as int] == file@);
        if file.after.is_some() {
            files_routed = files_routed + 1;
        }
        if let Some(c) = change(root, file, &current[i]) {
            let ghost before = changes_model(changes@);
            changes.push(c);
            assert(changes_model(changes@) =~= before.push(c@));
        }
        i = i + 1;
    }
    NormalizeReport { changes: sort_changes(changes), files_routed }
}

// ---------------------------------------------------------------------- rendering

/// The hunks of the unified diff of two texts, with `radius` lines of context,
/// that the crate `similar` makes of them.
pub uninterp spec fn hunks_of(before: Seq<char>, after: Seq<char>, radius: int) -> Seq<char>;

/// `TextDiff::from_lines` of the crate `similar`, shown by
/// `UnifiedDiff::to_string` without a header. The contract names the result.
/// The radius is doubled in machine arithmetic, so the double has to fit.
#[verifier::external_body]
pub(crate) fn diff_hunks(before: &str, after: &str, radius: usize) -> (out: String)
    requires
        radius <= usize::MAX / 2,
    ensures
        out@ == hunks_of(before@, after@, radius as int),
{
    TextDiff::from_lines(before, after).unified_diff().context_radius(radius).to_string()
}

/// A unified diff under the two names of a path.
pub open spec fn unified(path: Seq<char>, before: Seq<char>, after: Seq<char>) -> Seq<char> {
    diff_under(path, hunks_of(before, after, 3))
}

/// Hunks under the two names of a path.
pub open spec fn diff_under(path: Seq<char>, hunks: Seq<char>) -> Seq<char> {
    "--- a/"@ + path + "\n+++ b/"@ + path + "\n"@ + hunks
}

/// Puts hunks under the two names of a path.
pub fn with_diff_header(path: &str, hunks: &str) -> (out: String)
    ensures
        out@ == diff_under(path@, hunks@),
{
    let mut out = concat("--- a/", path);
    out.append("\n+++ b/");
    out.append(path);
    out.append("\n");
    out.append(hunks);
    out
}

/// A unified diff with three lines of context.
pub fn unified_diff(path: &str, before: &str, after: &str) -> (out: String)
    ensures
        out@ == unified(path@, before@, after@),
{
    with_diff_header(path, &diff_hunks(before, after, 3))
}

/// The printed paths of the first `n` changes, one per line.
pub open spec fn path_lines(v: Seq<FileChangeV>, n: int) -> Seq<char>
    decreases n,
{
    if n <= 0 {
        Seq::empty()
    } else {
        path_lines(v, n - 1) + v[n - 1].display + "\n"@
    }
}

/// What happens to a file, as a verb.
pub open spec fn verb(action: Action) -> Seq<char> {
    match action {
        Action::Create => "create"@,
        Action::Update => "update"@,
        Action::Delete => "delete"@,
    }
}

/// The first `n` changes, one per line.
pub open spec fn change_lines(v: Seq<FileChangeV>, n: int) -> Seq<char>
    decreases n,
{
    if n <= 0 {
        Seq::empty()
    } else {
        change_lines(v, n - 1) + ("  "@ + verb(v[n - 1].action) + " "@ + v[n - 1].display + "\n"@)
    }
}

/// The diffs of the first `n` changes, each behind an empty line.
pub open spec fn change_diffs(v: Seq<FileChangeV>, n: int) -> Seq<char>
    decreases n,
{
    if n <= 0 {
        Seq::empty()
    } else {
        change_diffs(v, n - 1) + "\n"@ + unified(
            v[n - 1].display,
            v[n - 1].before,
            v[n - 1].after,
        )
    }
}

/// Whether a change deletes its file, among the first `n`.
pub open spec fn deletions_upto(v: Seq<FileChangeV>, n: int) -> Seq<FileChangeV>
    decreases n,
{
    if n <= 0 {
        Seq::empty()
    } else if v[n - 1].action == Action::Delete {
        deletions_upto(v, n - 1).push(v[n - 1])
    } else {
        deletions_upto(v, n - 1)
    }
}

/// What a list of borrowed changes holds.
pub open spec fn borrowed_changes(v: Seq<&FileChange>) -> Seq<FileChangeV> {
    Seq::new(v.len(), |i: int| v[i]@)
}

impl NormalizeReport {
    /// `Found` where there is a change.
    pub fn outcome(&self) -> (o: Outcome)
        ensures
            o == if self.changes.len() > 0 {
                Outcome::Found
            } else {
                Outcome::Clean
            },
    {
        Outcome::of(self.changes.len() > 0)
    }

    /// The changes that delete a file.
    pub fn deletions(&self) -> (out: Vec<&FileChange>)
        ensures
            borrowed_changes(out@) == deletions_upto(
                changes_model(self.changes@),
                self.changes.len() as int,
            ),
    {
        let ghost model = changes_model(self.changes@);
        let mut out: Vec<&FileChange> = Vec::new();
        let mut i: usize = 0;
        assert(borrowed_changes(out@) =~= Seq::empty());
        while i < self.changes.len()
            invariant
                i <= self.changes.len(),
                model == changes_model(self.changes@),
                borrowed_changes(out@) == deletions_upto(model, i as int),
            decreases self.changes.len() - i,
        {
            let c = &self.changes[i];
            assert(model[i as int] == c@);
            if c.action == Action::Delete {
                let ghost before = borrowed_changes(out@);
                out.push(c);
                assert(borrowed_changes(out@) =~= before.push(c@));
            }
            i = i + 1;
        }
        out
    }

    /// The report of a check that changes nothing.
    pub fn to_check_text(&self) -> (out: String)
        ensures
            out@ == if self.changes.len() == 0 {
                "All data is normalized\n"@
            } else {
                "The following data requires normalization ("@ + decimal(
                    self.changes.len() as nat,
                ) + " found)\n"@ + path_lines(
                    changes_model(self.changes@),
                    self.changes.len() as int,
                ) + "Run `i18n-tasks-rs normalize --write` to fix\n"@
            },
    {
        if self.changes.len() == 0 {
            return "All data is normalized\n".to_owned();
        }
        let ghost model = changes_model(self.changes@);
        let mut out = "The following data requires normalization (".to_owned();
        out.append(&decimal_text(self.changes.len() as u64));
        out.append(" found)\n");
        let ghost head = out@;
        let mut i: usize = 0;
        assert(head + path_lines(model, 0) =~= head);
        while i < self.changes.len()
            invariant
                i <= self.changes.len(),
                model == changes_model(self.changes@),
                out@ == head + path_lines(model, i as int),
            decreases self.changes.len() - i,
        {
            assert(model[i as int] == self.changes@[i as int]@);
            out.append(&self.changes[i].display);
            out.append("\n");
            i = i + 1;
            assert(out@ =~= head + path_lines(model, i as int));
        }
        out.append("Run `i18n-tasks-rs normalize --write` to fix\n");
        out
    }

    /// The summary of the plan. `diff` adds a unified diff per file.
    pub fn to_normalize_text(&self, diff: bool) -> (out: String)
        ensures
            out@ == if self.changes.len() == 0 {
                "All data is normalized\n"@
            } else {
                let v = changes_model(self.changes@);
                decimal(v.len()) + " file(s) to change\n"@ + change_lines(v, v.len() as int)
                    + if diff {
                    change_diffs(v, v.len() as int)
                } else {
                    Seq::empty()
                }
            },
    {
        if self.changes.len() == 0 {
            return "All data is normalized\n".to_owned();
        }
        let ghost model = changes_model(self.changes@);
        assert(model.len() == self.changes.len());
        let mut out = decimal_text(self.changes.len() as u64);
        out.append(" file(s) to change\n");
        let ghost head = out@;
        let mut i: usize = 0;
        assert(head + change_lines(model, 0) =~= head);
        while i < self.changes.len()
            invariant
                i <= self.changes.len(),
                model == changes_model(self.changes@),
                out@ == head + change_lines(model, i as int),
            decreases self.changes.len() - i,
        {
            let c = &self.changes[i];
            assert(model[i as int] == c@);
            out.append("  ");
            out.append(
                match c.action {
                    Action::Create => "create",
                    Action::Update => "update",
                    Action::Delete => "delete",
                },
            );
            out.append(" ");
            out.append(&c.display);
            out.append("\n");
            i = i + 1;
            assert(out@ =~= head + change_lines(model, i as int));
        }
        if diff {
            let ghost list = out@;
            let mut k: usize = 0;
            assert(list + change_diffs(model, 0) =~= list);
            while k < self.changes.len()
                invariant
                    k <= self.changes.len(),
                    model == changes_model(self.changes@),
                    out@ == list + change_diffs(model, k as int),
                decreases self.changes.len() - k,
            {
                let c = &self.changes[k];
                assert(model[k as int] == c@);
                out.append("\n");
                out.append(&unified_diff(&c.display, &c.before, &c.after));
                k = k + 1;
                assert(out@ =~= list + change_diffs(model, k as int));
            }
        } else {
            assert(out@ + Seq::<char>::empty() =~= out@);
        }
        out
    }
}

// -------------------------------------------------------------------------- laws

/// A file that already holds what it should is left alone.
pub proof fn a_normalized_file_is_not_changed(root: Seq<char>, file: PlannedFileV)
    requires
        file.after is Some,
    ensures
        change_of(root, file, file.after) is None,
{
}

/// A plan keeps its promises: every file that is written is claimed, no two of
/// them have one path, and no file that is written or deleted holds another
/// locale.
pub open spec fn is_safe(trees: Map<Seq<char>, LocaleTree>, p: PlanV) -> bool {
    &&& forall|i: int|
        0 <= i < p.files.len() && (#[trigger] p.files[i]).after is Some ==> p.claimed.contains_key(
            path_key(p.files[i].path),
        )
    &&& forall|i: int, j: int|
        0 <= i < j < p.files.len() && (#[trigger] p.files[i]).after is Some && (
        #[trigger] p.files[j]).after is Some ==> path_key(p.files[i].path) != path_key(
            p.files[j].path,
        )
    &&& forall|i: int|
        0 <= i < p.files.len() ==> foreign_locales(
            trees[(#[trigger] p.files[i]).locale],
            p.files[i].path,
            p.files[i].locale,
        ).len() == 0
}

proof fn destinations_are_safe(
    trees: Map<Seq<char>, LocaleTree>,
    keep_order: bool,
    locale: Seq<char>,
    dests: Seq<Destination>,
    n: int,
    before: PlanV,
)
    requires
        is_safe(trees, before),
        0 <= n <= dests.len(),
        with_destinations(keep_order, locale, trees[locale], dests, n, before) is Ok,
    ensures
        ({
            let now = with_destinations(keep_order, locale, trees[locale], dests, n, before)->Ok_0;
            &&& is_safe(trees, now)
            &&& now.files.len() == before.files.len() + n
            &&& forall|i: int|
                0 <= i < before.files.len() ==> #[trigger] now.files[i] == before.files[i]
            &&& forall|i: int|
                before.files.len() <= i < now.files.len() ==> #[trigger] now.files[i] == (
                PlannedFileV {
                    path: dests[i - before.files.len()].path@,
                    locale,
                    after: Some(
                        file_text(
                            keep_order,
                            locale,
                            trees[locale],
                            texts(dests[i - before.files.len()].keys@),
                        ),
                    ),
                })
        }),
    decreases n,
{
    if n > 0 {
        destinations_are_safe(trees, keep_order, locale, dests, n - 1, before);
        let prior = with_destinations(
            keep_order,
            locale,
            trees[locale],
            dests,
            n - 1,
            before,
        )->Ok_0;
        let now = with_destinations(keep_order, locale, trees[locale], dests, n, before)->Ok_0;
        assert(now.files.drop_last() =~= prior.files);
        assert forall|i: int|
            0 <= i < now.files.len() && (#[trigger] now.files[i]).after is Some implies now.claimed.contains_key(
            path_key(now.files[i].path),
        ) by {
            if i < prior.files.len() {
                assert(now.files[i] == prior.files[i]);
            }
        }
        assert forall|i: int, j: int|
            0 <= i < j < now.files.len() && (#[trigger] now.files[i]).after is Some && (
            #[trigger] now.files[j]).after is Some implies path_key(now.files[i].path) != path_key(
            now.files[j].path,
        ) by {
            assert(now.files[i] == prior.files[i]);
            if j < prior.files.len() {
                assert(now.files[j] == prior.files[j]);
            }
        }
        assert forall|i: int| 0 <= i < now.files.len() implies foreign_locales(
            trees[(#[trigger] now.files[i]).locale],
            now.files[i].path,
            now.files[i].locale,
        ).len() == 0 by {
            if i < prior.files.len() {
                assert(now.files[i] == prior.files[i]);
            }
        }
    }
}

proof fn deletions_are_safe(
    trees: Map<Seq<char>, LocaleTree>,
    locale: Seq<char>,
    dests: Seq<Destination>,
    origin: Seq<Seq<char>>,
    n: int,
    before: PlanV,
)
    requires
        is_safe(trees, before),
        0 <= n <= origin.len(),
        with_deletions(locale, trees[locale], dests, origin, n, before) is Ok,
    ensures
        ({
            let now = with_deletions(locale, trees[locale], dests, origin, n, before)->Ok_0;
            &&& is_safe(trees, now)
            &&& now.files.len() >= before.files.len()
            &&& forall|i: int|
                0 <= i < before.files.len() ==> #[trigger] now.files[i] == before.files[i]
        }),
    decreases n,
{
    if n > 0 {
        deletions_are_safe(trees, locale, dests, origin, n - 1, before);
        let prior = with_deletions(locale, trees[locale], dests, origin, n - 1, before)->Ok_0;
        let now = with_deletions(locale, trees[locale], dests, origin, n, before)->Ok_0;
        if now.files.len() > prior.files.len() {
            assert(now.files.drop_last() =~= prior.files);
            assert forall|i: int|
                0 <= i < now.files.len() && (
                #[trigger] now.files[i]).after is Some implies now.claimed.contains_key(
                path_key(now.files[i].path),
            ) by {
                assert(now.files[i] == prior.files[i]);
            }
            assert forall|i: int, j: int|
                0 <= i < j < now.files.len() && (#[trigger] now.files[i]).after is Some && (
                #[trigger] now.files[j]).after is Some implies path_key(now.files[i].path)
                != path_key(now.files[j].path) by {
                assert(now.files[i] == prior.files[i]);
                assert(now.files[j] == prior.files[j]);
            }
            assert forall|i: int| 0 <= i < now.files.len() implies foreign_locales(
                trees[(#[trigger] now.files[i]).locale],
                now.files[i].path,
                now.files[i].locale,
            ).len() == 0 by {
                if i < prior.files.len() {
                    assert(now.files[i] == prior.files[i]);
                }
            }
        }
    }
}

/// A file that is written with a key of the locale in it.
pub open spec fn writes_key(
    file: PlannedFileV,
    keep_order: bool,
    locale: Seq<char>,
    tree: LocaleTree,
    key: Seq<char>,
) -> bool {
    file.locale == locale && exists|keys: Seq<Seq<char>>|
        keys.contains(key) && file.after == Some(
            #[trigger] file_text(keep_order, locale, tree, keys),
        )
}

/// One of the files is written with the key of the locale in it.
pub open spec fn some_file_writes(
    p: PlanV,
    keep_order: bool,
    locale: Seq<char>,
    tree: LocaleTree,
    key: Seq<char>,
) -> bool {
    exists|f: int|
        0 <= f < p.files.len() && writes_key(#[trigger] p.files[f], keep_order, locale, tree, key)
}

/// How a locale was added to a plan.
proof fn addition_of(planning: PlanningV, locale: Seq<char>, before: PlanV, after: PlanV) -> (r: (
    Seq<Destination>,
    Seq<Seq<char>>,
))
    requires
        planning.adds(locale, before, Ok(after)),
    ensures
        planning.store.trees@.contains_key(locale),
        grouped(
            r.0,
            routing(&planning.cfg, &planning.store, locale, planning.force_pattern),
            planning.store.trees@[locale].keys(),
            skipped(planning.skip, locale),
            planning.store.trees@[locale].keys().len() as int,
        ),
        with_locale(
            planning.cfg@.data.keep_order,
            locale,
            planning.store.trees@[locale],
            r.0,
            r.1,
            before,
        ) == Ok::<PlanV, Seq<char>>(after),
{
    let (dests, origin) = choose|dests: Result<Vec<Destination>, String>, origin: Seq<Seq<char>>|
        #[trigger]
        planning.adds_by(locale, before, Ok(after), dests, origin);
    (dests->Ok_0@, origin)
}

proof fn a_locale_is_safe(planning: PlanningV, locale: Seq<char>, before: PlanV, after: PlanV)
    requires
        is_safe(planning.store.trees@, before),
        planning.adds(locale, before, Ok(after)),
    ensures
        is_safe(planning.store.trees@, after),
        after.files.len() >= before.files.len(),
        forall|i: int|
            0 <= i < before.files.len() ==> #[trigger] after.files[i] == before.files[i],
{
    let trees = planning.store.trees@;
    let keep = planning.cfg@.data.keep_order;
    let (v, origin) = addition_of(planning, locale, before, after);
    let middle = with_destinations(
        keep,
        locale,
        trees[locale],
        v,
        v.len() as int,
        before,
    )->Ok_0;
    destinations_are_safe(trees, keep, locale, v, v.len() as int, before);
    deletions_are_safe(trees, locale, v, origin, origin.len() as int, middle);
    assert forall|i: int| 0 <= i < before.files.len() implies #[trigger] after.files[i]
        == before.files[i] by {
        assert(middle.files[i] == before.files[i]);
    }
}

proof fn a_locale_loses_no_key(
    planning: PlanningV,
    locale: Seq<char>,
    before: PlanV,
    after: PlanV,
    j: int,
)
    requires
        is_safe(planning.store.trees@, before),
        planning.adds(locale, before, Ok(after)),
        0 <= j < planning.store.trees@[locale].keys().len(),
        !skipped(planning.skip, locale).contains_key(planning.store.trees@[locale].keys()[j]),
    ensures
        some_file_writes(
            after,
            planning.cfg@.data.keep_order,
            locale,
            planning.store.trees@[locale],
            planning.store.trees@[locale].keys()[j],
        ),
{
    let trees = planning.store.trees@;
    let keep = planning.cfg@.data.keep_order;
    let tree = trees[locale];
    let keys = tree.keys();
    let r = routing(&planning.cfg, &planning.store, locale, planning.force_pattern);
    let (v, origin) = addition_of(planning, locale, before, after);
    let d = place_of_key(v, r, keys, skipped(planning.skip, locale), j);
    a_destination_is_planned(trees, keep, locale, v, origin, before, after, d, keys[j]);
}

proof fn place_of_key(
    v: Seq<Destination>,
    r: RouteV,
    keys: Seq<Seq<char>>,
    skip: Map<Seq<char>, ()>,
    j: int,
) -> (d: int)
    requires
        grouped(v, r, keys, skip, keys.len() as int),
        0 <= j < keys.len(),
        !skip.contains_key(keys[j]),
    ensures
        0 <= d < v.len(),
        texts(v[d].keys@).contains(keys[j]),
{
    a_key_goes_to_exactly_one_file(v, r, keys, skip, j);
    choose|d: int| 0 <= d < v.len() && texts((#[trigger] v[d]).keys@).contains(keys[j])
}

proof fn a_destination_is_planned(
    trees: Map<Seq<char>, LocaleTree>,
    keep_order: bool,
    locale: Seq<char>,
    v: Seq<Destination>,
    origin: Seq<Seq<char>>,
    before: PlanV,
    after: PlanV,
    d: int,
    key: Seq<char>,
)
    requires
        is_safe(trees, before),
        with_locale(keep_order, locale, trees[locale], v, origin, before) == Ok::<
            PlanV,
            Seq<char>,
        >(after),
        0 <= d < v.len(),
        texts(v[d].keys@).contains(key),
    ensures
        some_file_writes(after, keep_order, locale, trees[locale], key),
{
    let tree = trees[locale];
    let middle = with_destinations(keep_order, locale, tree, v, v.len() as int, before)->Ok_0;
    destinations_are_safe(trees, keep_order, locale, v, v.len() as int, before);
    deletions_are_safe(trees, locale, v, origin, origin.len() as int, middle);
    let f = before.files.len() + d;
    let file = middle.files[f];
    assert(after.files[f] == file);
    assert(file.after == Some(file_text(keep_order, locale, tree, texts(v[d].keys@))));
    assert(writes_key(after.files[f], keep_order, locale, tree, key));
}

proof fn last_locale(planning: PlanningV, locales: Seq<Seq<char>>, n: nat, p: PlanV) -> (q: PlanV)
    requires
        0 < n,
        planning.plans(locales, n, Ok(p)),
    ensures
        planning.plans(locales, (n - 1) as nat, Ok(q)),
        planning.adds(locales[n - 1], q, Ok(p)),
{
    let before = choose|before: Result<PlanV, Seq<char>>| #[trigger]
        planning.follows(locales[n - 1], before, Ok(p)) && planning.plans(
            locales,
            (n - 1) as nat,
            before,
        );
    before->Ok_0
}

proof fn a_plan_is_safe(planning: PlanningV, locales: Seq<Seq<char>>, n: nat, p: PlanV)
    requires
        n <= locales.len(),
        planning.plans(locales, n, Ok(p)),
    ensures
        is_safe(planning.store.trees@, p),
    decreases n,
{
    if n > 0 {
        let q = last_locale(planning, locales, n, p);
        a_plan_is_safe(planning, locales, (n - 1) as nat, q);
        a_locale_is_safe(planning, locales[n - 1], q, p);
    }
}

proof fn every_key_is_written(
    planning: PlanningV,
    locales: Seq<Seq<char>>,
    n: nat,
    p: PlanV,
    k: int,
    j: int,
)
    requires
        0 <= k < n <= locales.len(),
        planning.plans(locales, n, Ok(p)),
        0 <= j < planning.store.trees@[locales[k]].keys().len(),
        !skipped(planning.skip, locales[k]).contains_key(
            planning.store.trees@[locales[k]].keys()[j],
        ),
    ensures
        some_file_writes(
            p,
            planning.cfg@.data.keep_order,
            locales[k],
            planning.store.trees@[locales[k]],
            planning.store.trees@[locales[k]].keys()[j],
        ),
    decreases n,
{
    let q = last_locale(planning, locales, n, p);
    a_plan_is_safe(planning, locales, (n - 1) as nat, q);
    if k == n - 1 {
        a_locale_loses_no_key(planning, locales[k], q, p, j);
    } else {
        every_key_is_written(planning, locales, (n - 1) as nat, q, k, j);
        a_locale_is_safe(planning, locales[n - 1], q, p);
        let tree = planning.store.trees@[locales[k]];
        let key = tree.keys()[j];
        let keep = planning.cfg@.data.keep_order;
        let f = choose|f: int|
            0 <= f < q.files.len() && writes_key(
                #[trigger] q.files[f],
                keep,
                locales[k],
                tree,
                key,
            );
        assert(p.files[f] == q.files[f]);
    }
}

/// Two locales are never written to one file: no two files that a plan writes
/// have the same path.
pub proof fn no_two_planned_files_share_a_path(
    planning: PlanningV,
    locales: Seq<Seq<char>>,
    p: PlanV,
    i: int,
    j: int,
)
    requires
        planning.plans(locales, locales.len(), Ok(p)),
        0 <= i < j < p.files.len(),
        p.files[i].after is Some,
        p.files[j].after is Some,
    ensures
        path_key(p.files[i].path) != path_key(p.files[j].path),
{
    a_plan_is_safe(planning, locales, locales.len(), p);
}

/// A plan never touches a file that holds another locale: such a file would
/// lose it.
pub proof fn no_planned_file_holds_another_locale(
    planning: PlanningV,
    locales: Seq<Seq<char>>,
    p: PlanV,
    i: int,
)
    requires
        planning.plans(locales, locales.len(), Ok(p)),
        0 <= i < p.files.len(),
    ensures
        foreign_locales(
            planning.store.trees@[p.files[i].locale],
            p.files[i].path,
            p.files[i].locale,
        ).len() == 0,
{
    a_plan_is_safe(planning, locales, locales.len(), p);
}

/// A plan loses no key: every key of every locale that is not left out on
/// purpose is written to a file.
pub proof fn a_plan_loses_no_key(
    planning: PlanningV,
    locales: Seq<Seq<char>>,
    p: PlanV,
    k: int,
    j: int,
)
    requires
        planning.plans(locales, locales.len(), Ok(p)),
        0 <= k < locales.len(),
        0 <= j < planning.store.trees@[locales[k]].keys().len(),
        !skipped(planning.skip, locales[k]).contains_key(
            planning.store.trees@[locales[k]].keys()[j],
        ),
    ensures
        some_file_writes(
            p,
            planning.cfg@.data.keep_order,
            locales[k],
            planning.store.trees@[locales[k]],
            planning.store.trees@[locales[k]].keys()[j],
        ),
{
    every_key_is_written(planning, locales, locales.len(), p, k, j);
}

} // verus!
