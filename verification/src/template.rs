//! Entity templates: sets of bundles an entity is constructed from, and
//! their serializable descriptions.
use flax::EntityBuilder;
use vstd::prelude::*;

verus! {

#[verifier::external_type_specification]
#[verifier::external_body]
pub struct ExEntityBuilder(EntityBuilder);

/// A bundle describes a set of related components mounted to an entity.
pub trait Bundle {
    /// Mounting the bundle can turn the entity being built from `before`
    /// into `after`. A bundle that says nothing of what it mounts allows any
    /// change.
    open spec fn mounts(&self, before: EntityBuilder, after: EntityBuilder) -> bool {
        true
    }

    fn mount(&self, entity: &mut EntityBuilder)
        ensures
            self.mounts(*old(entity), *final(entity)),
    ;
}

/// `after` is `before` with each of `bundles` mounted on it, in order.
pub open spec fn mounts_all(bundles: Seq<Box<dyn Bundle>>, before: EntityBuilder, after: EntityBuilder) -> bool
    decreases bundles.len(),
{
    if bundles.len() == 0 {
        after == before
    } else {
        exists|mid: EntityBuilder| mounts_all(bundles.drop_last(), before, mid) && #[trigger] bundles.last().mounts(mid, after)
    }
}

/// Calls `flax::Entity::builder`, which starts an entity with no component.
/// Nothing is stated: the builder's components are not visible here.
#[verifier::external_body]
fn new_entity_builder() -> EntityBuilder {
    flax::Entity::builder()
}

/// A bundle of a template, whose concrete type is erased.
struct BoxedBundle {
    bundle: Box<dyn Bundle>,
}

impl BoxedBundle {
    fn new<B: 'static + Bundle>(bundle: B) -> (r: Self)
        ensures
            r.bundle == ({ let b: Box<dyn Bundle> = Box::new(bundle); b }),
    {
        let b: Box<dyn Bundle> = Box::new(bundle);
        BoxedBundle { bundle: b }
    }
}

/// Defines an entity template to construct an entity using [`Bundle`]s
pub struct Template {
    bundles: Vec<BoxedBundle>,
}

impl Template {
    /// The bundles of the template, in the order they are mounted.
    pub closed spec fn bundles(&self) -> Seq<Box<dyn Bundle>> {
        self.bundles@.map_values(|b: BoxedBundle| b.bundle)
    }

    pub fn new() -> (t: Self)
        ensures
            t.bundles() == Seq::<Box<dyn Bundle>>::empty(),
    {
        Template { bundles: Vec::new() }
    }

    pub fn with_bundle<B: 'static + Bundle>(self, bundle: B) -> (t: Self)
        ensures
            t.bundles().len() == self.bundles().len() + 1,
            t.bundles().take(self.bundles().len() as int) == self.bundles(),
            t.bundles().last() == ({ let b: Box<dyn Bundle> = Box::new(bundle); b }),
    {
        let mut bundles = self.bundles;
        bundles.push(BoxedBundle::new(bundle));
        let t = Template { bundles };
        assert(t.bundles().take(self.bundles().len() as int) =~= self.bundles());
        t
    }

    /// Starts an entity and mounts each bundle of the template on it, in
    /// order.
    pub fn build(&self) -> (r: EntityBuilder)
        ensures
            exists|start: EntityBuilder| mounts_all(self.bundles(), start, r),
    {
        let mut entity = new_entity_builder();
        let ghost start = entity;
        let n = self.bundles.len();
        assert(self.bundles().take(0) =~= Seq::<Box<dyn Bundle>>::empty());
        for i in 0..n
            invariant
                n == self.bundles@.len(),
                n == self.bundles().len(),
                mounts_all(self.bundles().take(i as int), start, entity),
        {
            let ghost mid = entity;
            self.bundles[i].bundle.mount(&mut entity);
            proof {
                let t = self.bundles().take(i + 1);
                assert(t.drop_last() =~= self.bundles().take(i as int));
                assert(t.last() == self.bundles[i as int].bundle);
                assert(mounts_all(t.drop_last(), start, mid) && t.last().mounts(mid, entity));
            }
        }
        assert(self.bundles().take(n as int) =~= self.bundles());
        entity
    }
}

impl Default for Template {
    fn default() -> (t: Self)
        ensures
            t.bundles() == Seq::<Box<dyn Bundle>>::empty(),
    {
        Self::new()
    }
}

/// Offline bundle descriptor
pub trait BundleDesc: Send + Sync {
    /// Whether the descriptor states its tag in
    /// [`spec_tag_name`](BundleDesc::spec_tag_name). Those that do not say
    /// nothing of it.
    open spec fn states_tag(&self) -> bool {
        false
    }

    /// The tag under which the bundle is registered, where the descriptor
    /// states it.
    open spec fn spec_tag_name(&self) -> Seq<char> {
        Seq::empty()
    }

    /// The tag under which the bundle is registered.
    fn tag_name(&self) -> (r: &'static str)
        ensures
            self.states_tag() ==> r@ == self.spec_tag_name(),
    ;
}

/// A bundle descriptor whose concrete type is erased.
pub struct ErasedBundleDesc {
    bundle: Box<dyn BundleDesc>,
}

impl ErasedBundleDesc {
    /// Whether the descriptor whose type is erased states its tag.
    pub closed spec fn states_tag(&self) -> bool {
        self.bundle.states_tag()
    }

    /// The tag of the descriptor whose type is erased, where it states it.
    pub closed spec fn spec_tag_name(&self) -> Seq<char> {
        self.bundle.spec_tag_name()
    }

    /// Whether the erased descriptor is `bundle`.
    pub closed spec fn holds<B: 'static + BundleDesc>(&self, bundle: B) -> bool {
        self.bundle == ({ let b: Box<dyn BundleDesc> = Box::new(bundle); b })
    }

    /// Whether the erased descriptor is the one boxed in `bundle`.
    pub closed spec fn holds_box(&self, bundle: Box<dyn BundleDesc>) -> bool {
        self.bundle == bundle
    }

    pub fn new(bundle: Box<dyn BundleDesc>) -> (r: Self)
        ensures
            r.holds_box(bundle),
    {
        ErasedBundleDesc { bundle }
    }

    /// Erases the type of `bundle`.
    fn erase<B: 'static + BundleDesc>(bundle: B) -> (r: Self)
        ensures
            r.holds(bundle),
    {
        let b: Box<dyn BundleDesc> = Box::new(bundle);
        ErasedBundleDesc { bundle: b }
    }

    pub fn tag_name(&self) -> (r: &'static str)
        ensures
            self.states_tag() ==> r@ == self.spec_tag_name(),
    {
        self.bundle.tag_name()
    }
}

/// Offline descriptor of a template that is serializable
pub struct TemplateDesc {
    bundles: Vec<ErasedBundleDesc>,
}

impl TemplateDesc {
    /// The bundle descriptors of the template, in order.
    pub closed spec fn bundles(&self) -> Seq<ErasedBundleDesc> {
        self.bundles@
    }

    pub fn new() -> (t: Self)
        ensures
            t.bundles() == Seq::<ErasedBundleDesc>::empty(),
    {
        TemplateDesc { bundles: Vec::new() }
    }

    pub fn with_bundle<B: 'static + BundleDesc>(self, bundle: B) -> (t: Self)
        ensures
            t.bundles().len() == self.bundles().len() + 1,
            t.bundles().take(self.bundles().len() as int) == self.bundles(),
            t.bundles().last().holds(bundle),
    {
        let mut t = self;
        t.bundles.push(ErasedBundleDesc::erase(bundle));
        assert(t.bundles@.take(self.bundles@.len() as int) == self.bundles@);
        t
    }
}

impl Default for TemplateDesc {
    fn default() -> (t: Self)
        ensures
            t.bundles() == Seq::<ErasedBundleDesc>::empty(),
    {
        Self::new()
    }
}

} // verus!
