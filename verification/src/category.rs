//! Categories: flat, keyed records that tasks may point at.  Deleting a
//! category never touches the tasks that reference it.

use vstd::prelude::*;

use crate::ids::fresh_id;

verus! {

/// The mathematical model of a stored category.
pub struct CategoryModel {
    pub id: Seq<char>,
    pub name: Seq<char>,
    pub color: Seq<char>,
    pub icon: Option<Seq<char>>,
    pub created_at: i64,
}

/// A category as stored.
pub struct Category {
    pub id: String,
    pub name: String,
    pub color: String,
    pub icon: Option<String>,
    pub created_at: i64,
}

impl View for Category {
    type V = CategoryModel;

    open spec fn view(&self) -> CategoryModel {
        CategoryModel {
            id: self.id@,
            name: self.name@,
            color: self.color@,
            icon: self.icon.deep_view(),
            created_at: self.created_at,
        }
    }
}

impl DeepView for Category {
    type V = CategoryModel;

    open spec fn deep_view(&self) -> CategoryModel {
        self.view()
    }
}

impl Clone for Category {
    /// A clone denotes the same category record.
    fn clone(&self) -> (res: Self)
        ensures
            res@ == self@,
    {
        Category {
            id: self.id.clone(),
            name: self.name.clone(),
            color: self.color.clone(),
            icon: self.icon.clone(),
            created_at: self.created_at,
        }
    }
}

/// What a caller supplies to create a category.
pub struct CreateCategoryRequest {
    pub name: String,
    pub color: String,
    pub icon: Option<String>,
}

/// A partial category update: present fields overwrite; the icon can be set
/// but never cleared.
pub struct UpdateCategoryRequest {
    pub name: Option<String>,
    pub color: Option<String>,
    pub icon: Option<String>,
}

/// The model of a partial category update.
pub struct CategoryUpdateModel {
    pub name: Option<Seq<char>>,
    pub color: Option<Seq<char>>,
    pub icon: Option<Seq<char>>,
}

impl View for UpdateCategoryRequest {
    type V = CategoryUpdateModel;

    open spec fn view(&self) -> CategoryUpdateModel {
        CategoryUpdateModel {
            name: self.name.deep_view(),
            color: self.color.deep_view(),
            icon: self.icon.deep_view(),
        }
    }
}

/// The category a creation request denotes, given the generated id and the
/// current instant.
pub open spec fn created_category(
    request: CreateCategoryRequest,
    id: Seq<char>,
    now: i64,
) -> CategoryModel {
    CategoryModel {
        id: id,
        name: request.name@,
        color: request.color@,
        icon: request.icon.deep_view(),
        created_at: now,
    }
}

/// The category that a partial update turns `m` into.  Category updates do
/// not carry a stamp.
pub open spec fn updated_category(m: CategoryModel, r: CategoryUpdateModel) -> CategoryModel {
    CategoryModel {
        id: m.id,
        name: if r.name is Some { r.name->Some_0 } else { m.name },
        color: if r.color is Some { r.color->Some_0 } else { m.color },
        icon: if r.icon is Some { r.icon } else { m.icon },
        created_at: m.created_at,
    }
}

impl Category {
    /// Builds a category from a creation request: a fresh id is drawn and the
    /// creation instant is stamped.  The id is random, so the caller checks
    /// freshness against the store.
    pub fn new(request: CreateCategoryRequest, now: i64) -> (c: Category)
        ensures
            c@ == created_category(request, c@.id, now),
            c@.id.len() == 36,
    {
        let id = fresh_id();
        Category {
            id,
            name: request.name,
            color: request.color,
            icon: request.icon,
            created_at: now,
        }
    }

    /// Applies a partial update in place.
    pub fn update(&mut self, request: UpdateCategoryRequest)
        ensures
            final(self)@ == updated_category(old(self)@, request@),
    {
        if let Some(name) = request.name {
            self.name = name;
        }
        if let Some(color) = request.color {
            self.color = color;
        }
        if let Some(icon) = request.icon {
            self.icon = Some(icon);
        }
    }
}

} // verus!
