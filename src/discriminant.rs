//! Building a union's shape from its declared variants: discriminant
//! assignment and the check that no two variants share one.

use crate::format::{distinct_discriminants, wf};
use crate::error::Error;
use crate::shape::{Shape, VariantShape};
use vstd::prelude::*;

verus! {

/// A variant as declared: its discriminant if one is written, and its payload fields.
#[derive(Debug)]
pub struct VariantDecl {
    pub discriminant: Option<u16>,
    pub fields: Vec<Shape>,
}

/// The discriminant the next implicit variant gets after the ones in `prev`:
/// 0 for the first, else one more than the last.
pub open spec fn next_implicit(prev: Seq<u16>) -> int {
    if prev.len() == 0 {
        0
    } else {
        prev.last() + 1
    }
}

/// The discriminants of variants declared with `explicit`, in order: an
/// explicit value is used as written, an implicit one is one more than the
/// previous variant's (0 for the first). Fails where one passes `u16::MAX`, or
/// where a discriminant repeats one given before it.
pub open spec fn table(explicit: Seq<Option<u16>>) -> Result<Seq<u16>, Error>
    decreases explicit.len(),
{
    if explicit.len() == 0 {
        Ok(Seq::empty())
    } else {
        match table(explicit.drop_last()) {
            Err(e) => Err(e),
            Ok(prev) => {
                let d = match explicit.last() {
                    Some(v) => v as int,
                    None => next_implicit(prev),
                };
                if d > u16::MAX {
                    Err(Error::TryFromInt)
                } else if prev.contains(d as u16) {
                    Err(Error::DuplicateDiscriminant(d as u16))
                } else {
                    Ok(prev.push(d as u16))
                }
            },
        }
    }
}

/// The written discriminants of `decls`, in order.
pub open spec fn explicit_of(decls: Seq<VariantDecl>) -> Seq<Option<u16>> {
    Seq::new(decls.len(), |i: int| decls[i].discriminant)
}

/// A table that builds gives every variant its own discriminant, follows each
/// written one, and counts on by one from the previous variant where none is written.
pub proof fn lemma_table_ok(explicit: Seq<Option<u16>>)
    ensures
        table(explicit) is Ok ==> {
            let ds = table(explicit)->Ok_0;
            &&& ds.len() == explicit.len()
            &&& ds.no_duplicates()
            &&& forall|i: int|
                0 <= i < ds.len() ==> match #[trigger] explicit[i] {
                    Some(v) => ds[i] == v,
                    None => ds[i] == next_implicit(ds.subrange(0, i)),
                }
        },
    decreases explicit.len(),
{
    if explicit.len() > 0 {
        let init = explicit.drop_last();
        lemma_table_ok(init);
        if table(explicit) is Ok {
            let prev = table(init)->Ok_0;
            let ds = table(explicit)->Ok_0;
            assert(ds.subrange(0, ds.len() - 1) =~= prev);
            assert forall|i: int| 0 <= i < ds.len() implies match #[trigger] explicit[i] {
                Some(v) => ds[i] == v,
                None => ds[i] == next_implicit(ds.subrange(0, i)),
            } by {
                if i < ds.len() - 1 {
                    assert(explicit[i] == init[i]);
                    assert(ds.subrange(0, i) =~= prev.subrange(0, i));
                }
            }
        }
    }
}

/// Builds a union's shape from its declared variants, giving each its
/// discriminant by [`table`]; fails as [`table`] does.
pub fn union_shape(decls: Vec<VariantDecl>) -> (r: Result<Shape, Error>)
    ensures
        match table(explicit_of(decls@)) {
            Err(e) => r == Err::<Shape, Error>(e),
            Ok(ds) => r is Ok && r->Ok_0 is Union && {
                let vars = r->Ok_0->Union_0@;
                &&& vars.len() == decls@.len()
                &&& forall|i: int|
                    0 <= i < vars.len() ==> #[trigger] vars[i].discriminant == ds[i] && vars[i].fields
                        == decls@[i].fields
            },
        },
{
    let ghost ex = explicit_of(decls@);
    let ghost orig = decls@;
    let mut ds: Vec<u16> = Vec::new();
    let mut i: usize = 0;
    proof {
        assert(ex.subrange(0, 0) =~= Seq::<Option<u16>>::empty());
    }
    while i < decls.len()
        invariant
            i <= decls@.len(),
            ex == explicit_of(decls@),
            table(ex.subrange(0, i as int)) == Ok::<Seq<u16>, Error>(ds@),
        decreases decls@.len() - i,
    {
        let ghost sub = ex.subrange(0, i + 1);
        assert(sub.drop_last() =~= ex.subrange(0, i as int));
        assert(sub.last() == decls@[i as int].discriminant);
        let d: u16 = match decls[i].discriminant {
            Some(v) => v,
            None => {
                if ds.len() == 0 {
                    0
                } else if ds[ds.len() - 1] == u16::MAX {
                    proof {
                        lemma_table_prefix_err(ex, i + 1);
                    }
                    return Err(Error::TryFromInt);
                } else {
                    ds[ds.len() - 1] + 1
                }
            },
        };
        let mut j: usize = 0;
        while j < ds.len()
            invariant
                j <= ds@.len(),
                i < decls@.len(),
                ex == explicit_of(decls@),
                sub == ex.subrange(0, i + 1),
                sub.drop_last() == ex.subrange(0, i as int),
                table(ex.subrange(0, i as int)) == Ok::<Seq<u16>, Error>(ds@),
                d as int == match sub.last() {
                    Some(v) => v as int,
                    None => next_implicit(ds@),
                },
                forall|k: int| 0 <= k < j ==> ds@[k] != d,
            decreases ds@.len() - j,
        {
            if ds[j] == d {
                proof {
                    assert(ds@.contains(d));
                    lemma_table_prefix_err(ex, i + 1);
                }
                return Err(Error::DuplicateDiscriminant(d));
            }
            j = j + 1;
        }
        assert(!ds@.contains(d));
        ds.push(d);
        i = i + 1;
    }
    assert(ex.subrange(0, i as int) =~= ex);
    proof {
        lemma_table_ok(ex);
    }
    let mut vars: Vec<VariantShape> = Vec::new();
    let mut rest = decls;
    let mut k: usize = 0;
    while k < ds.len()
        invariant
            k <= ds@.len(),
            ds@.len() == orig.len(),
            rest@ == orig.subrange(k as int, orig.len() as int),
            vars@.len() == k,
            forall|m: int|
                0 <= m < k ==> #[trigger] vars@[m].discriminant == ds@[m] && vars@[m].fields == orig[m].fields,
        decreases ds@.len() - k,
    {
        let decl = rest.remove(0);
        assert(rest@ =~= orig.subrange(k + 1, orig.len() as int));
        vars.push(VariantShape { discriminant: ds[k], fields: decl.fields });
        k = k + 1;
    }
    Ok(Shape::Union(vars))
}

/// Once building the table fails for the first variants, it fails for all of them.
proof fn lemma_table_prefix_err(ex: Seq<Option<u16>>, i: int)
    requires
        0 <= i <= ex.len(),
        table(ex.subrange(0, i)) is Err,
    ensures
        table(ex) == table(ex.subrange(0, i)),
    decreases ex.len() - i,
{
    if i < ex.len() {
        assert(ex.subrange(0, i + 1).drop_last() =~= ex.subrange(0, i));
        lemma_table_prefix_err(ex, i + 1);
    } else {
        assert(ex.subrange(0, i) =~= ex);
    }
}

/// A union built from declared variants gives each variant its own
/// discriminant, so it is well formed wherever its fields are.
pub proof fn lemma_union_shape_wf(decls: Seq<VariantDecl>, shape: Shape)
    requires
        table(explicit_of(decls)) is Ok,
        shape is Union,
        shape->Union_0@.len() == decls.len(),
        forall|i: int|
            0 <= i < decls.len() ==> #[trigger] shape->Union_0@[i].discriminant == table(
                explicit_of(decls),
            )->Ok_0[i],
        forall|i: int| 0 <= i < decls.len() ==> #[trigger] shape->Union_0@[i].fields == decls[i].fields,
        forall|i: int, j: int|
            0 <= i < decls.len() && 0 <= j < decls[i].fields@.len() ==> wf(#[trigger] decls[i].fields@[j]),
    ensures
        distinct_discriminants(shape->Union_0@),
        wf(shape),
{
    let vars = shape->Union_0@;
    lemma_table_ok(explicit_of(decls));
    let ds = table(explicit_of(decls))->Ok_0;
    assert forall|i: int, j: int| 0 <= i < j < vars.len() implies #[trigger] vars[i].discriminant
        != #[trigger] vars[j].discriminant by {
        assert(ds[i] != ds[j]);
    }
    assert forall|i: int, j: int| 0 <= i < vars.len() && 0 <= j < vars[i].fields@.len() implies wf(
        #[trigger] vars[i].fields@[j],
    ) by {
        assert(vars[i].fields == decls[i].fields);
        assert(wf(decls[i].fields@[j]));
    }
}

} // verus!
