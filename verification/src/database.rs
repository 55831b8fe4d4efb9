//! The database: both stores side by side, and the initializer that brings a
//! fresh or existing store to its ground state.
//!
//! The initializer collapses duplicate category names to the id-first
//! survivor and seeds the default categories whose names are missing.  It is
//! idempotent: a second run finds every default name present and unique names
//! throughout, and changes nothing (see the laws module).

use vstd::prelude::*;

use crate::category::{Category, CategoryModel};
use crate::error::AppError;
use crate::ids::fresh_id;
use crate::repository::{
    contains_category_name, dedup_categories, unique_category_names, CategoryRepository,
    TaskRepository,
};

verus! {

/// How many default categories are seeded.
pub open spec fn default_count() -> int {
    4
}

/// The name of the `d`-th default category.
pub open spec fn default_name(d: int) -> Seq<char> {
    if d == 0 {
        "Personal"@
    } else if d == 1 {
        "Work"@
    } else if d == 2 {
        "Shopping"@
    } else {
        "Health"@
    }
}

/// The color of the `d`-th default category.
pub open spec fn default_color(d: int) -> Seq<char> {
    if d == 0 {
        "#3B82F6"@
    } else if d == 1 {
        "#EF4444"@
    } else if d == 2 {
        "#10B981"@
    } else {
        "#F59E0B"@
    }
}

/// The icon token of the `d`-th default category.
pub open spec fn default_icon(d: int) -> Seq<char> {
    if d == 0 {
        "User"@
    } else if d == 1 {
        "Briefcase"@
    } else if d == 2 {
        "ShoppingCart"@
    } else {
        "Heart"@
    }
}

/// `m` is a default category seeded at `now` whose name was missing from the
/// deduplicated base.
pub open spec fn is_seeded_default(
    m: CategoryModel,
    base: Seq<CategoryModel>,
    now: i64,
) -> bool {
    &&& m.id.len() == 36
    &&& exists|d: int|
        0 <= d < default_count() && m.name == #[trigger] default_name(d) && m.color
            == default_color(d) && m.icon == Some(default_icon(d)) && m.created_at == now
            && !contains_category_name(base, default_name(d))
}

/// Every default category name is present.
pub open spec fn defaults_present(s: Seq<CategoryModel>) -> bool {
    forall|d: int| 0 <= d < default_count() ==> contains_category_name(s, #[trigger] default_name(d))
}

/// What the initializer leaves in the category store: the deduplicated old
/// records first, then one seeded default per missing default name, with
/// every default name present and all names unique.
pub open spec fn migrations_post(
    before: Seq<CategoryModel>,
    after: Seq<CategoryModel>,
    now: i64,
) -> bool {
    let base = dedup_categories(before);
    &&& base.len() <= after.len()
    &&& after.subrange(0, base.len() as int) == base
    &&& forall|k: int|
        base.len() <= k < after.len() ==> is_seeded_default(#[trigger] after[k], base, now)
    &&& forall|d: int| 0 <= d < default_count() ==> contains_category_name(after, default_name(d))
    &&& unique_category_names(after)
}

/// The two stores of the application.
pub struct Database {
    pub tasks: TaskRepository,
    pub categories: CategoryRepository,
}

impl Database {
    /// Both stores keep their invariant.
    pub open spec fn wf(&self) -> bool {
        self.tasks.wf() && self.categories.wf()
    }

    /// A fresh store, initialized at `now`: no tasks, and exactly the default
    /// categories.  Fails only if the random ids drawn for the defaults
    /// collide.
    pub fn in_memory(now: i64) -> (r: Result<Database, AppError>)
        ensures
            r matches Ok(db) ==> db.wf() && db.tasks@ == Seq::<
                crate::task::TaskModel,
            >::empty() && migrations_post(Seq::empty(), db.categories@, now),
            r matches Err(e) ==> e == AppError::DuplicateId,
    {
        let mut db = Database { tasks: TaskRepository::new(), categories: CategoryRepository::new() };
        match run_migrations(&mut db, now) {
            Ok(()) => Ok(db),
            Err(e) => Err(e),
        }
    }
}

/// Seeds one default category unless its name is already present.
fn seed_one(
    cats: &mut CategoryRepository,
    name: &str,
    color: &str,
    icon: &str,
    now: i64,
) -> (r: Result<(), AppError>)
    requires
        old(cats).wf(),
    ensures
        final(cats).wf(),
        r matches Err(e) ==> e == AppError::DuplicateId,
        contains_category_name(old(cats)@, name@) ==> r == Result::<(), AppError>::Ok(())
            && final(cats)@ == old(cats)@,
        r is Ok && !contains_category_name(old(cats)@, name@) ==> final(cats)@.len()
            == old(cats)@.len() + 1 && final(cats)@.subrange(0, old(cats)@.len() as int)
            == old(cats)@ && final(cats)@.last().id.len() == 36 && final(cats)@.last() == (
        CategoryModel {
            id: final(cats)@.last().id,
            name: name@,
            color: color@,
            icon: Some(icon@),
            created_at: now,
        }),
{
    if cats.has_name(name) {
        return Ok(());
    }
    let c = Category {
        id: fresh_id(),
        name: name.to_owned(),
        color: color.to_owned(),
        icon: Some(icon.to_owned()),
        created_at: now,
    };
    let r = cats.create(&c);
    proof {
        if !crate::repository::contains_category_id(old(cats)@, c@.id) {
            assert(final(cats)@.subrange(0, old(cats)@.len() as int) =~= old(cats)@);
        }
    }
    r
}

/// Brings the category store to its ground state: collapses duplicate names
/// to the id-first survivor, then seeds each missing default category,
/// stamped at `now`.  The task store is untouched; the schema itself lives
/// with the persistence layer.  Safe to run repeatedly: when every default
/// name is already present after deduplication, nothing is drawn or inserted
/// and the run succeeds.
pub fn run_migrations(db: &mut Database, now: i64) -> (r: Result<(), AppError>)
    requires
        old(db).wf(),
    ensures
        final(db).wf(),
        final(db).tasks@ == old(db).tasks@,
        r matches Err(e) ==> e == AppError::DuplicateId,
        r is Ok ==> migrations_post(old(db).categories@, final(db).categories@, now),
        defaults_present(dedup_categories(old(db).categories@)) ==> r == Result::<
            (),
            AppError,
        >::Ok(()),
{
    let ghost before = old(db).categories@;
    db.categories.dedup_by_name();
    let ghost base = db.categories@;
    proof {
        assert(base == dedup_categories(before));
        assert(base.subrange(0, base.len() as int) =~= base);
        assert(seed_inv(base, base, 0, now));
    }
    match seed_one(&mut db.categories, "Personal", "#3B82F6", "User", now) {
        Ok(()) => {},
        Err(e) => {
            proof {
                if defaults_present(base) {
                    assert(contains_category_name(base, default_name(0)));
                }
            }
            return Err(e);
        },
    }
    proof {
        lemma_seed_extends(base, db.categories@, 0, now, base);
        if defaults_present(base) {
            assert(contains_category_name(base, default_name(0)));
            assert(db.categories@ == base);
        }
    }
    let ghost s1 = db.categories@;
    match seed_one(&mut db.categories, "Work", "#EF4444", "Briefcase", now) {
        Ok(()) => {},
        Err(e) => {
            proof {
                if defaults_present(base) {
                    assert(s1 == base);
                    assert(contains_category_name(s1, default_name(1)));
                }
            }
            return Err(e);
        },
    }
    proof {
        lemma_seed_extends(base, db.categories@, 1, now, s1);
        if defaults_present(base) {
            assert(contains_category_name(s1, default_name(1)));
            assert(db.categories@ == base);
        }
    }
    let ghost s2 = db.categories@;
    match seed_one(&mut db.categories, "Shopping", "#10B981", "ShoppingCart", now) {
        Ok(()) => {},
        Err(e) => {
            proof {
                if defaults_present(base) {
                    assert(s2 == base);
                    assert(contains_category_name(s2, default_name(2)));
                }
            }
            return Err(e);
        },
    }
    proof {
        lemma_seed_extends(base, db.categories@, 2, now, s2);
        if defaults_present(base) {
            assert(contains_category_name(s2, default_name(2)));
            assert(db.categories@ == base);
        }
    }
    let ghost s3 = db.categories@;
    match seed_one(&mut db.categories, "Health", "#F59E0B", "Heart", now) {
        Ok(()) => {},
        Err(e) => {
            proof {
                if defaults_present(base) {
                    assert(s3 == base);
                    assert(contains_category_name(s3, default_name(3)));
                }
            }
            return Err(e);
        },
    }
    proof {
        lemma_seed_extends(base, db.categories@, 3, now, s3);
    }
    Ok(())
}

/// The invariant carried across the seeding steps: the store is the base plus
/// seeded defaults, with all names unique and the first `upto` default names
/// present.
pub open spec fn seed_inv(
    base: Seq<CategoryModel>,
    cur: Seq<CategoryModel>,
    upto: int,
    now: i64,
) -> bool {
    &&& base.len() <= cur.len()
    &&& cur.subrange(0, base.len() as int) == base
    &&& forall|k: int| base.len() <= k < cur.len() ==> is_seeded_default(#[trigger] cur[k], base, now)
    &&& forall|d: int| 0 <= d < upto ==> contains_category_name(cur, default_name(d))
    &&& unique_category_names(cur)
}

/// One seeding step preserves the seeding invariant.
proof fn lemma_seed_extends(
    base: Seq<CategoryModel>,
    cur: Seq<CategoryModel>,
    d: int,
    now: i64,
    prev: Seq<CategoryModel>,
)
    requires
        0 <= d < default_count(),
        seed_inv(base, prev, d, now),
        // what seed_one guarantees, restated:
        contains_category_name(prev, default_name(d)) ==> cur == prev,
        !contains_category_name(prev, default_name(d)) ==> cur.len() == prev.len() + 1
            && cur.subrange(0, prev.len() as int) == prev && cur.last().id.len() == 36
            && cur.last() == (CategoryModel {
            id: cur.last().id,
            name: default_name(d),
            color: default_color(d),
            icon: Some(default_icon(d)),
            created_at: now,
        }),
    ensures
        seed_inv(base, cur, d + 1, now),
{
    if contains_category_name(prev, default_name(d)) {
        assert(seed_inv(base, cur, d + 1, now)) by {
            assert(forall|e: int|
                0 <= e < d ==> contains_category_name(cur, #[trigger] default_name(e)));
        }
    } else {
        assert(cur.subrange(0, base.len() as int) =~= base) by {
            assert(prev.subrange(0, base.len() as int) == base);
            assert(forall|k: int| 0 <= k < prev.len() ==> #[trigger] cur[k] == prev[k]);
        }
        assert(!contains_category_name(base, default_name(d))) by {
            if contains_category_name(base, default_name(d)) {
                let w = choose|w: int|
                    0 <= w < base.len() && base[w].name == default_name(d);
                assert(prev[w] == base[w]);
            }
        }
        assert(is_seeded_default(cur.last(), base, now));
        assert forall|k: int| base.len() <= k < cur.len() implies is_seeded_default(
            #[trigger] cur[k],
            base,
            now,
        ) by {
            if k < prev.len() {
                assert(cur[k] == prev[k]);
            }
        }
        assert forall|e: int| 0 <= e < d + 1 implies contains_category_name(
            cur,
            #[trigger] default_name(e),
        ) by {
            if e < d {
                let w = choose|w: int|
                    0 <= w < prev.len() && prev[w].name == default_name(e);
                assert(cur[w].name == default_name(e));
            } else {
                assert(cur[cur.len() - 1].name == default_name(d));
            }
        }
        assert forall|a: int, b: int| 0 <= a < b < cur.len() implies cur[a].name
            != cur[b].name by {
            if b < prev.len() {
                assert(cur[a] == prev[a] && cur[b] == prev[b]);
            } else {
                assert(cur[a] == prev[a]);
                assert(cur[b].name == default_name(d));
                if prev[a].name == default_name(d) {
                    assert(contains_category_name(prev, default_name(d)));
                }
            }
        }
    }
}

} // verus!
