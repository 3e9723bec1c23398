//! Diagnostic codes and the rewrite categories they map to.
//!
//! A diagnostic code is an opaque identifier assigned by the external build
//! tool. A fixed allow-list of codes marks a context-selector rename; a
//! second, disjoint allow-list marks a closure that needs a placeholder
//! argument. Every other code is not actionable.

use vstd::prelude::*;
use vstd::string::StringExecFns;

verus! {

/// A rewrite category, carrying the payload the edit acts on (a span, or a
/// byte range). The two branches stay jointly sortable through `unify`,
/// which exposes the shared payload.
#[derive(Debug, Copy, Clone, PartialEq, Eq)]
pub enum Category<T> {
    ContextSelectorRename(T),
    WithContextArgument(T),
}

impl<T> Category<T> {
    /// The payload, regardless of branch.
    pub open spec fn spec_unify(self) -> T {
        match self {
            Category::ContextSelectorRename(v) => v,
            Category::WithContextArgument(v) => v,
        }
    }

    /// Whether this is the rename branch (the other is the argument branch).
    pub open spec fn spec_is_rename(self) -> bool {
        self is ContextSelectorRename
    }

    /// Borrow the payload, keeping the branch.
    pub fn as_ref(&self) -> (r: Category<&T>)
        ensures
            r.spec_is_rename() == self.spec_is_rename(),
            *r.spec_unify() == self.spec_unify(),
    {
        match self {
            Category::ContextSelectorRename(v) => Category::ContextSelectorRename(v),
            Category::WithContextArgument(v) => Category::WithContextArgument(v),
        }
    }

    /// Extract the payload, discarding the branch.
    pub fn unify(self) -> (r: T)
        ensures
            r == self.spec_unify(),
    {
        match self {
            Category::ContextSelectorRename(v) => v,
            Category::WithContextArgument(v) => v,
        }
    }

    /// Apply `f` to the payload, keeping the branch.
    pub fn map<U, F: FnOnce(T) -> U>(self, f: F) -> (r: Category<U>)
        requires
            call_requires(f, (self.spec_unify(),)),
        ensures
            r.spec_is_rename() == self.spec_is_rename(),
            call_ensures(f, (self.spec_unify(),), r.spec_unify()),
    {
        match self {
            Category::ContextSelectorRename(v) => Category::ContextSelectorRename(f(v)),
            Category::WithContextArgument(v) => Category::WithContextArgument(f(v)),
        }
    }
}

/// A diagnostic code as reported by the build tool.
#[derive(Debug, Clone, PartialEq, Eq)]
pub struct Code {
    pub code: String,
}

/// The fixed allow-list of codes that mark an unresolved name, unresolved
/// import, or unknown variant: a context-selector rename fixes these.
pub open spec fn spec_is_context_selector_rename(code: Seq<char>) -> bool {
    ||| code == "E0412"@
    ||| code == "E0422"@
    ||| code == "E0423"@
    ||| code == "E0425"@
    ||| code == "E0432"@
    ||| code == "E0574"@
}

/// The fixed allow-list of codes that mark a closure arity mismatch: a
/// placeholder closure argument fixes these.
pub open spec fn spec_is_with_context_argument(code: Seq<char>) -> bool {
    code == "E0593"@
}

/// Equality of a `String` against a literal.
fn str_lit_eq(s: &String, lit: &str) -> (r: bool)
    ensures
        r == (s@ == lit@),
{
    let other: String = String::from_str(lit);
    s.eq(&other)
}

impl Code {
    /// Whether this code belongs to the rename allow-list.
    pub fn is_context_selector_rename(&self) -> (r: bool)
        ensures
            r == spec_is_context_selector_rename(self.code@),
    {
        str_lit_eq(&self.code, "E0412") || str_lit_eq(&self.code, "E0422") || str_lit_eq(
            &self.code,
            "E0423",
        ) || str_lit_eq(&self.code, "E0425") || str_lit_eq(&self.code, "E0432") || str_lit_eq(
            &self.code,
            "E0574",
        )
    }

    /// Whether this code belongs to the placeholder-argument allow-list.
    pub fn is_with_context_argument(&self) -> (r: bool)
        ensures
            r == spec_is_with_context_argument(self.code@),
    {
        str_lit_eq(&self.code, "E0593")
    }

    /// The category this code maps to, if any, carrying `v` as payload.
    /// A code outside both allow-lists is not actionable.
    pub fn categorize<T>(&self, v: T) -> (r: Option<Category<T>>)
        ensures
            spec_is_context_selector_rename(self.code@) ==> r == Some(
                Category::ContextSelectorRename(v),
            ),
            !spec_is_context_selector_rename(self.code@) && spec_is_with_context_argument(
                self.code@,
            ) ==> r == Some(Category::WithContextArgument(v)),
            !spec_is_context_selector_rename(self.code@) && !spec_is_with_context_argument(
                self.code@,
            ) ==> r is None,
    {
        if self.is_context_selector_rename() {
            Some(Category::ContextSelectorRename(v))
        } else if self.is_with_context_argument() {
            Some(Category::WithContextArgument(v))
        } else {
            None
        }
    }
}

} // verus!
