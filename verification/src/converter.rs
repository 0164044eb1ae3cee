//! A decorator over any container: elements are mapped through a pair of
//! conversion functions on the way in and out, and every operation is
//! delegated to the wrapped container.

use vstd::prelude::*;

use crate::container::CloneContainer;
use crate::container::Container;
use crate::error::ContainerError;

verus! {

/// Wraps `container`, converting elements with `into_fn` before they go in
/// and with `from_fn` as they come out.
pub struct ConverterAdapter<A, B, C> {
    /// The conversion applied to elements going in.
    pub into_fn: A,
    /// The conversion applied to elements coming out.
    pub from_fn: B,
    /// The wrapped container.
    pub container: C,
}

impl<A, B, C> ConverterAdapter<A, B, C> {
    /// A new adapter around `container`.
    pub fn new(into_fn: A, from_fn: B, container: C) -> (r: ConverterAdapter<A, B, C>)
        ensures
            r.into_fn == into_fn,
            r.from_fn == from_fn,
            r.container == container,
    {
        ConverterAdapter { into_fn, from_fn, container }
    }
}

/// Equal conversion functions accept the same arguments: carries the
/// totality of the conversions across a state change that keeps them.
proof fn lemma_closures_kept<A, B, C, AE, BE>(
    pre: ConverterAdapter<A, B, C>,
    post: ConverterAdapter<A, B, C>,
) where A: Fn(AE) -> BE, B: Fn(BE) -> AE
    requires
        post.into_fn == pre.into_fn,
        post.from_fn == pre.from_fn,
        forall|ae: AE| call_requires(pre.into_fn, (ae,)),
        forall|be: BE| call_requires(pre.from_fn, (be,)),
    ensures
        forall|ae: AE| call_requires(post.into_fn, (ae,)),
        forall|be: BE| call_requires(post.from_fn, (be,)),
{
    assert forall|ae: AE| call_requires(post.into_fn, (ae,)) by {
        assert(call_requires(pre.into_fn, (ae,)));
    }
    assert forall|be: BE| call_requires(post.from_fn, (be,)) by {
        assert(call_requires(pre.from_fn, (be,)));
    }
}

impl<A, B, AE, BE, C> Container<AE> for ConverterAdapter<A, B, C> where
    A: Fn(AE) -> BE,
    B: Fn(BE) -> AE,
    C: Container<BE>,
 {
    type I = C::I;

    /// The wrapped container is sound and both conversions accept every
    /// value handed to them.
    open spec fn inv(&self) -> bool {
        &&& self.container.inv()
        &&& forall|ae: AE| call_requires(self.into_fn, (ae,))
        &&& forall|be: BE| call_requires(self.from_fn, (be,))
    }

    open spec fn can_reserve(&self) -> bool {
        self.container.can_reserve()
    }

    open spec fn can_update(&self, id: C::I) -> bool {
        self.container.can_update(id)
    }

    open spec fn can_remove(&self) -> bool {
        self.container.can_remove()
    }

    open spec fn can_insert(&self, element: &AE) -> bool {
        forall|be: BE|
            call_ensures(self.into_fn, (*element,), be) ==> self.container.can_insert(&be)
    }

    open spec fn reserve_post(pre: Self, post: Self, r: Result<C::I, ContainerError>) -> bool {
        &&& C::reserve_post(pre.container, post.container, r)
        &&& post.into_fn == pre.into_fn
        &&& post.from_fn == pre.from_fn
    }

    open spec fn insert_post(pre: Self, post: Self, element: AE, r: Result<C::I, ContainerError>) -> bool {
        &&& exists|be: BE|
            call_ensures(pre.into_fn, (element,), be) && #[trigger] C::insert_post(
                pre.container,
                post.container,
                be,
                r,
            )
        &&& post.into_fn == pre.into_fn
        &&& post.from_fn == pre.from_fn
    }

    open spec fn update_post(
        pre: Self,
        post: Self,
        id: C::I,
        element: AE,
        r: Result<Option<AE>, ContainerError>,
    ) -> bool {
        &&& exists|be: BE, ri: Result<Option<BE>, ContainerError>|
            {
                &&& call_ensures(pre.into_fn, (element,), be)
                &&& #[trigger] C::update_post(pre.container, post.container, id, be, ri)
                &&& (match ri {
                    Ok(Some(ob)) => r matches Ok(Some(oa)) && call_ensures(
                        pre.from_fn,
                        (ob,),
                        oa,
                    ),
                    Ok(None) => r == Ok::<Option<AE>, ContainerError>(None),
                    Err(e) => r == Err::<Option<AE>, ContainerError>(e),
                })
            }
        &&& post.into_fn == pre.into_fn
        &&& post.from_fn == pre.from_fn
    }

    open spec fn remove_post(pre: Self, post: Self, id: C::I, r: Result<Option<AE>, ContainerError>) -> bool {
        &&& exists|ri: Result<Option<BE>, ContainerError>|
            {
                &&& #[trigger] C::remove_post(pre.container, post.container, id, ri)
                &&& (match ri {
                    Ok(Some(ob)) => r matches Ok(Some(oa)) && call_ensures(
                        pre.from_fn,
                        (ob,),
                        oa,
                    ),
                    Ok(None) => r == Ok::<Option<AE>, ContainerError>(None),
                    Err(e) => r == Err::<Option<AE>, ContainerError>(e),
                })
            }
        &&& post.into_fn == pre.into_fn
        &&& post.from_fn == pre.from_fn
    }

    open spec fn clear_post(pre: Self, post: Self) -> bool {
        &&& C::clear_post(pre.container, post.container)
        &&& post.into_fn == pre.into_fn
        &&& post.from_fn == pre.from_fn
    }

    open spec fn contains_post(&self, id: C::I, r: bool) -> bool {
        self.container.contains_post(id, r)
    }

    open spec fn ids_post(&self, r: Seq<C::I>) -> bool {
        self.container.ids_post(r)
    }

    fn reserve(&mut self) -> (r: Result<C::I, ContainerError>) {
        let r = self.container.reserve();
        proof {
            lemma_closures_kept::<A, B, C, AE, BE>(*old(self), *self);
        }
        r
    }

    fn insert(&mut self, element: AE) -> (r: Result<C::I, ContainerError>) {
        let converted = (self.into_fn)(element);
        let r = self.container.insert(converted);
        proof {
            lemma_closures_kept::<A, B, C, AE, BE>(*old(self), *self);
        }
        r
    }

    fn update(&mut self, id: C::I, new_element: AE) -> (r: Result<Option<AE>, ContainerError>) {
        let converted = (self.into_fn)(new_element);
        let inner = self.container.update(id, converted);
        proof {
            lemma_closures_kept::<A, B, C, AE, BE>(*old(self), *self);
            assert(call_ensures(old(self).into_fn, (new_element,), converted));
            assert(C::update_post(old(self).container, self.container, id, converted, inner));
        }
        match inner {
            Ok(Some(old_element)) => {
                let out = (self.from_fn)(old_element);
                proof {
                    assert(call_ensures(old(self).from_fn, (old_element,), out));
                }
                Ok(Some(out))
            },
            Ok(None) => Ok(None),
            Err(e) => Err(e),
        }
    }

    fn remove(&mut self, id: C::I) -> (r: Result<Option<AE>, ContainerError>) {
        let inner = self.container.remove(id);
        proof {
            lemma_closures_kept::<A, B, C, AE, BE>(*old(self), *self);
        }
        match inner {
            Ok(Some(old_element)) => Ok(Some((self.from_fn)(old_element))),
            Ok(None) => Ok(None),
            Err(e) => Err(e),
        }
    }

    fn contains(&mut self, id: C::I) -> (r: Result<bool, ContainerError>) {
        let r = self.container.contains(id);
        proof {
            lemma_closures_kept::<A, B, C, AE, BE>(*old(self), *self);
        }
        r
    }

    fn ids(&self) -> (r: Vec<C::I>) {
        self.container.ids()
    }

    fn clear(&mut self) -> (r: Result<(), ContainerError>) {
        let r = self.container.clear();
        proof {
            lemma_closures_kept::<A, B, C, AE, BE>(*old(self), *self);
        }
        r
    }
}

impl<A, B, AE, BE, C> CloneContainer<AE> for ConverterAdapter<A, B, C> where
    A: Fn(AE) -> BE,
    B: Fn(BE) -> AE,
    C: CloneContainer<BE>,
 {
    open spec fn get_clone_post(&self, id: C::I, r: Result<Option<AE>, ContainerError>) -> bool {
        exists|ri: Result<Option<BE>, ContainerError>|
            {
                &&& #[trigger] self.container.get_clone_post(id, ri)
                &&& (match ri {
                    Ok(Some(ob)) => r matches Ok(Some(oa)) && call_ensures(
                        self.from_fn,
                        (ob,),
                        oa,
                    ),
                    Ok(None) => r == Ok::<Option<AE>, ContainerError>(None),
                    Err(e) => r == Err::<Option<AE>, ContainerError>(e),
                })
            }
    }

    fn get_clone(&mut self, id: C::I) -> (r: Result<Option<AE>, ContainerError>) {
        let inner = self.container.get_clone(id);
        proof {
            lemma_closures_kept::<A, B, C, AE, BE>(*old(self), *self);
        }
        match inner {
            Ok(Some(old_element)) => Ok(Some((self.from_fn)(old_element))),
            Ok(None) => Ok(None),
            Err(e) => Err(e),
        }
    }
}

} // verus!
