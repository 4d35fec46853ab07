//! Resources: what a run provides, what its nodes require, and the check of the one
//! against the other before anything runs.
//!
//! Resources are told apart by their type. A type stands here as a number of its own and
//! the name by which it is shown.

use crate::handle::NodeId;
use crate::payload::ordered;
use crate::payload::OrderedMap;
use crate::text;
use vstd::prelude::*;

verus! {

/// Why a registry could not be built.
#[derive(Debug, Clone, Copy, PartialEq, Eq)]
#[non_exhaustive]
pub enum RegistryError {
    /// A resource of the type was registered before.
    Duplicate {
        /// The type's name.
        resource: &'static str,
    },
}

impl View for RegistryError {
    type V = Seq<char>;

    open spec fn view(&self) -> Seq<char> {
        match self {
            RegistryError::Duplicate { resource } => resource@,
        }
    }
}

impl RegistryError {
    /// The error in words.
    #[must_use]
    pub fn render(&self) -> (r: String)
        ensures
            r@ == "ambiguous resource registration: a resource of type `"@ + self@
                + "` is already registered — distinguish two same-typed resources with newtype wrappers"@,
    {
        match self {
            RegistryError::Duplicate { resource } => {
                let mut s = String::from_str("ambiguous resource registration: a resource of type `");
                s.append(resource);
                s.append("` is already registered — distinguish two same-typed resources with newtype wrappers");
                s
            },
        }
    }
}

/// The resources of a run, by type. Once built it does not change.
#[derive(Clone, Debug)]
pub struct ResourceRegistry<R> {
    resources: OrderedMap<u64, R>,
}

impl<R> View for ResourceRegistry<R> {
    type V = Map<u64, R>;

    closed spec fn view(&self) -> Map<u64, R> {
        self.resources@
    }
}

impl<R> Default for ResourceRegistry<R> {
    fn default() -> (r: Self)
        ensures
            r@ == Map::<u64, R>::empty(),
    {
        ResourceRegistry { resources: OrderedMap::new() }
    }
}

impl<R> ResourceRegistry<R> {
    /// Starts a registry.
    #[must_use]
    pub fn builder() -> (r: ResourceRegistryBuilder<R>)
        ensures
            r@ == Map::<u64, R>::empty(),
    {
        ResourceRegistryBuilder { resources: OrderedMap::new() }
    }

    /// The resource of a type.
    #[must_use]
    pub fn get(&self, key: u64) -> (r: Option<&R>)
        ensures
            match r {
                Some(resource) => self@.dom().contains(key) && *resource == self@[key],
                None => !self@.dom().contains(key),
            },
    {
        self.resources.get(&key)
    }

    /// Whether there are no resources.
    #[must_use]
    pub fn is_empty(&self) -> (r: bool)
        ensures
            r == (self@ == Map::<u64, R>::empty()),
    {
        let n: usize = self.resources.len();
        proof {
            let es = self.resources.entries();
            if es.len() == 0 {
                assert(self@ =~= Map::<u64, R>::empty());
            } else {
                ordered::lemma_entry::<u64, R>(es, 0);
                assert(self@.dom().contains(es[0].0));
            }
        }
        n == 0
    }

    /// The number of resources.
    #[must_use]
    pub fn len(&self) -> (r: usize)
        ensures
            self@.dom().finite(),
            r == self@.dom().len(),
    {
        let n: usize = self.resources.len();
        proof {
            ordered::lemma_map_len::<u64, R>(self.resources.entries());
        }
        n
    }

    /// Holds what nodes require against the registry.
    ///
    /// # Errors
    ///
    /// Every type that is required and not registered, in ascending order, each with all
    /// the nodes that require it, in the order of the declarations.
    pub fn validate_requirements(&self, declarations: &[(NodeId, ResourceRequirements)]) -> (r: Result<
        (),
        BootstrapFailure,
    >)
        ensures
            match r {
                Ok(_) => reported(flat(decl_views(declarations@)), self@.dom(), Seq::empty()),
                Err(e) => e@.len() > 0 && reported(flat(decl_views(declarations@)), self@.dom(), e@),
            },
    {
        let ghost decls = decl_views(declarations@);
        let ghost known = self@.dom();
        let mut errors: Vec<MissingResourceError> = Vec::new();
        let mut i: usize = 0;
        assert(missing_views(errors@) =~= Seq::<MissingView>::empty());
        assert(decls.take(0) =~= Seq::<DeclView>::empty());
        while i < declarations.len()
            invariant
                i <= declarations.len(),
                decls == decl_views(declarations@),
                known == self@.dom(),
                reported(flat(decls.take(i as int)), known, missing_views(errors@)),
            decreases declarations.len() - i,
        {
            let node: NodeId = declarations[i].0;
            let required = &declarations[i].1;
            let ghost before = flat(decls.take(i as int));
            let ghost reqs = declarations@[i as int].1@;
            let mut k: usize = 0;
            assert(demands(node, reqs, 0) =~= Seq::<Demand>::empty());
            assert(before + demands(node, reqs, 0) =~= before);
            while k < required.len()
                invariant
                    k <= reqs.len(),
                    reqs == required@,
                    known == self@.dom(),
                    reported(before + demands(node, reqs, k as int), known, missing_views(errors@)),
                decreases reqs.len() - k,
            {
                let req = required.at(k);
                let ghost done = before + demands(node, reqs, k as int);
                let ghost item = Demand { node, key: req@.0, name: req@.1 };
                proof {
                    assert(demands(node, reqs, k + 1) =~= demands(node, reqs, k as int).push(item));
                    assert(before + demands(node, reqs, k + 1) =~= done.push(item));
                }
                if self.get(req.type_id()).is_some() {
                    proof {
                        lemma_known(done, known, missing_views(errors@), item);
                    }
                } else {
                    note_missing(&mut errors, req, node, Ghost(done), Ghost(known));
                }
                k = k + 1;
            }
            proof {
                assert(decls.take(i + 1).drop_last() =~= decls.take(i as int));
                assert(decls.take(i + 1).last() == decls[i as int]);
            }
            i = i + 1;
        }
        assert(decls.take(i as int) =~= decls);
        if errors.len() == 0 {
            assert(missing_views(errors@) =~= Seq::<MissingView>::empty());
            return Ok(());
        }
        Err(BootstrapFailure { errors })
    }
}

/// Builds a [`ResourceRegistry`].
#[derive(Debug)]
pub struct ResourceRegistryBuilder<R> {
    resources: OrderedMap<u64, R>,
}

impl<R> View for ResourceRegistryBuilder<R> {
    type V = Map<u64, R>;

    closed spec fn view(&self) -> Map<u64, R> {
        self.resources@
    }
}

impl<R> Default for ResourceRegistryBuilder<R> {
    fn default() -> (r: Self)
        ensures
            r@ == Map::<u64, R>::empty(),
    {
        ResourceRegistryBuilder { resources: OrderedMap::new() }
    }
}

impl<R> ResourceRegistryBuilder<R> {
    /// Adds a resource of a type.
    ///
    /// # Errors
    ///
    /// [`RegistryError::Duplicate`] if one of the type was added before.
    pub fn register(self, of: ResourceRequirement, resource: R) -> (r: Result<Self, RegistryError>)
        ensures
            match r {
                Ok(b) => !self@.dom().contains(of@.0) && b@ == self@.insert(of@.0, resource),
                Err(e) => self@.dom().contains(of@.0) && e@ == of@.1,
            },
    {
        if self.resources.get(&of.key).is_some() {
            return Err(RegistryError::Duplicate { resource: of.name });
        }
        let mut resources = self.resources;
        let _none = resources.insert(of.key, resource);
        Ok(ResourceRegistryBuilder { resources })
    }

    /// Ends the building.
    #[must_use]
    pub fn build(self) -> (r: ResourceRegistry<R>)
        ensures
            r@ == self@,
    {
        ResourceRegistry { resources: self.resources }
    }
}

/// How the checks before a run ended.
#[derive(Debug, Clone, Copy, PartialEq, Eq, Structural)]
#[non_exhaustive]
pub enum BootstrapOutcome {
    /// The run may start.
    Succeeded,
    /// The run does not start.
    BootstrapFailed,
}

/// A type that is required and not registered.
#[verifier::ext_equal]
pub struct MissingView {
    pub key: u64,
    pub name: Seq<char>,
    pub nodes: Seq<NodeId>,
}

/// A type that is required and not registered, with the nodes that require it.
#[derive(Debug, Clone, PartialEq, Eq)]
pub struct MissingResourceError {
    key: u64,
    name: &'static str,
    requiring_nodes: Vec<NodeId>,
}

impl View for MissingResourceError {
    type V = MissingView;

    closed spec fn view(&self) -> MissingView {
        MissingView { key: self.key, name: self.name@, nodes: self.requiring_nodes@ }
    }
}

/// The contents of errors.
pub open spec fn missing_views(errors: Seq<MissingResourceError>) -> Seq<MissingView> {
    errors.map_values(|e: MissingResourceError| e@)
}

/// Nodes as a list in words.
pub open spec fn nodes_text(nodes: Seq<NodeId>) -> Seq<char>
    decreases nodes.len(),
{
    if nodes.len() == 0 {
        Seq::empty()
    } else {
        (if nodes.len() == 1 {
            Seq::empty()
        } else {
            nodes_text(nodes.drop_last()) + ", "@
        }) + "NodeId("@ + text::decimal(nodes.last()@ as nat) + ")"@
    }
}

impl MissingView {
    /// The error in words.
    pub open spec fn rendered(self) -> Seq<char> {
        "resource `"@ + self.name + "` is required but was never registered; required by "@ + text::decimal(
            self.nodes.len(),
        ) + " node(s): ["@ + nodes_text(self.nodes) + "]"@
    }
}

fn render_nodes(nodes: &Vec<NodeId>) -> (r: String)
    ensures
        r@ == nodes_text(nodes@),
{
    let mut s = String::new();
    let mut i: usize = 0;
    assert(nodes@.take(0) =~= Seq::<NodeId>::empty());
    while i < nodes.len()
        invariant
            i <= nodes.len(),
            s@ == nodes_text(nodes@.take(i as int)),
        decreases nodes.len() - i,
    {
        let ghost before = s@;
        proof {
            let next = nodes@.take(i + 1);
            assert(next.drop_last() =~= nodes@.take(i as int));
            assert(next.last() == nodes@[i as int]);
        }
        if i > 0 {
            s.append(", ");
        }
        assert(i == 0 ==> s@ =~= Seq::<char>::empty());
        s.append("NodeId(");
        s.append(text::decimal_text(nodes[i].sort_key() as u128).as_str());
        s.append(")");
        i = i + 1;
    }
    assert(nodes@.take(i as int) =~= nodes@);
    s
}

impl MissingResourceError {
    /// The type's name.
    #[must_use]
    pub fn resource_type_name(&self) -> (r: &'static str)
        ensures
            r@ == self@.name,
    {
        self.name
    }

    /// The nodes that require it.
    #[must_use]
    pub fn requiring_nodes(&self) -> (r: &[NodeId])
        ensures
            r@ == self@.nodes,
    {
        self.requiring_nodes.as_slice()
    }

    /// The error in words.
    #[must_use]
    pub fn render(&self) -> (r: String)
        ensures
            r@ == self@.rendered(),
    {
        let mut s = String::from_str("resource `");
        s.append(self.name);
        s.append("` is required but was never registered; required by ");
        s.append(text::decimal_text(self.requiring_nodes.len() as u128).as_str());
        s.append(" node(s): [");
        s.append(render_nodes(&self.requiring_nodes).as_str());
        s.append("]");
        s
    }
}

/// Errors, each after a separator.
pub open spec fn each_rendered(errors: Seq<MissingView>) -> Seq<char>
    decreases errors.len(),
{
    if errors.len() == 0 {
        Seq::empty()
    } else {
        each_rendered(errors.drop_last()) + "; "@ + errors.last().rendered()
    }
}

/// Why a run does not start: every type that is required and not registered.
#[derive(Debug, Clone, PartialEq, Eq)]
pub struct BootstrapFailure {
    errors: Vec<MissingResourceError>,
}

impl View for BootstrapFailure {
    type V = Seq<MissingView>;

    closed spec fn view(&self) -> Seq<MissingView> {
        missing_views(self.errors@)
    }
}

impl BootstrapFailure {
    /// The outcome.
    #[must_use]
    pub fn outcome(&self) -> (r: BootstrapOutcome)
        ensures
            r == BootstrapOutcome::BootstrapFailed,
    {
        BootstrapOutcome::BootstrapFailed
    }

    /// The errors, one for each missing type.
    #[must_use]
    pub fn errors(&self) -> (r: &[MissingResourceError])
        ensures
            missing_views(r@) == self@,
    {
        self.errors.as_slice()
    }

    /// How many attempts were made: none.
    #[must_use]
    pub fn attempts_recorded(&self) -> (r: usize)
        ensures
            r == 0,
    {
        0
    }

    /// The failure in words.
    #[must_use]
    pub fn render(&self) -> (r: String)
        ensures
            r@ == "bootstrap failed: "@ + text::decimal(self@.len()) + " unmet resource requirement(s)"@ + each_rendered(
                self@,
            ),
    {
        let mut s = String::from_str("bootstrap failed: ");
        s.append(text::decimal_text(self.errors.len() as u128).as_str());
        s.append(" unmet resource requirement(s)");
        let ghost head = s@;
        let mut i: usize = 0;
        assert(self@.take(0) =~= Seq::<MissingView>::empty());
        assert(head + each_rendered(self@.take(0)) =~= head);
        while i < self.errors.len()
            invariant
                i <= self.errors.len(),
                self@.len() == self.errors.len(),
                s@ == head + each_rendered(self@.take(i as int)),
            decreases self.errors.len() - i,
        {
            let ghost before = s@;
            s.append("; ");
            s.append(self.errors[i].render().as_str());
            proof {
                let next = self@.take(i + 1);
                assert(next.drop_last() =~= self@.take(i as int));
                assert(next.last() == self.errors@[i as int]@);
                assert(s@ =~= head + each_rendered(next));
            }
            i = i + 1;
        }
        assert(self@.take(i as int) =~= self@);
        s
    }
}

/// A node's requirement of a type of resource: the type's number, and its name.
#[derive(Debug, Clone, Copy, PartialEq, Eq)]
pub struct ResourceRequirement {
    key: u64,
    name: &'static str,
}

impl View for ResourceRequirement {
    type V = (u64, Seq<char>);

    closed spec fn view(&self) -> (u64, Seq<char>) {
        (self.key, self.name@)
    }
}

impl ResourceRequirement {
    /// The requirement of a type.
    #[must_use]
    pub fn of(key: u64, name: &'static str) -> (r: Self)
        ensures
            r@ == (key, name@),
    {
        ResourceRequirement { key, name }
    }

    /// The number that identifies the type.
    #[must_use]
    pub fn type_id(&self) -> (r: u64)
        ensures
            r == self@.0,
    {
        self.key
    }

    /// The type's name.
    #[must_use]
    pub fn name(&self) -> (r: &'static str)
        ensures
            r@ == self@.1,
    {
        self.name
    }
}

/// The types of resources that a node requires, each once, in ascending order.
#[derive(Debug, Clone)]
pub struct ResourceRequirements {
    required: OrderedMap<u64, &'static str>,
}

impl View for ResourceRequirements {
    type V = Seq<(u64, Seq<char>)>;

    closed spec fn view(&self) -> Seq<(u64, Seq<char>)> {
        self.required.entries().map_values(|e: (u64, &'static str)| (e.0, e.1@))
    }
}

impl Default for ResourceRequirements {
    fn default() -> (r: Self)
        ensures
            r@ == Seq::<(u64, Seq<char>)>::empty(),
    {
        ResourceRequirements::new()
    }
}

/// Whether a type is among requirements.
pub open spec fn requires_key(required: Seq<(u64, Seq<char>)>, key: u64) -> bool {
    exists|i: int| 0 <= i < required.len() && (#[trigger] required[i]).0 == key
}

/// Whether requirements stand in ascending order, each type once.
pub open spec fn in_key_order(required: Seq<(u64, Seq<char>)>) -> bool {
    forall|i: int, j: int| 0 <= i < j < required.len() ==> (#[trigger] required[i]).0 < (#[trigger] required[j]).0
}

impl ResourceRequirements {
    /// No requirements.
    #[must_use]
    pub fn new() -> (r: Self)
        ensures
            r@ == Seq::<(u64, Seq<char>)>::empty(),
    {
        let r = ResourceRequirements { required: OrderedMap::new() };
        assert(r@ =~= Seq::<(u64, Seq<char>)>::empty());
        r
    }

    /// Requires a type. To require it again changes nothing but its name.
    #[must_use]
    pub fn require(self, req: ResourceRequirement) -> (r: Self)
        ensures
            in_key_order(r@),
            forall|key: u64| #[trigger] requires_key(r@, key) <==> requires_key(self@, key) || key == req@.0,
            forall|i: int|
                0 <= i < r@.len() ==> if (#[trigger] r@[i]).0 == req@.0 {
                    r@[i].1 == req@.1
                } else {
                    self@.contains(r@[i])
                },
    {
        let _n: usize = self.required.len();
        let ghost before = self.required.entries();
        let ghost was = self@;
        let mut required = self.required;
        let _old = required.insert(req.key, req.name);
        let _m: usize = required.len();
        let r = ResourceRequirements { required };
        proof {
            let after = required.entries();
            assert forall|i: int, j: int| 0 <= i < j < r@.len() implies (#[trigger] r@[i]).0 < (#[trigger] r@[j]).0 by {
                assert(<u64 as crate::payload::Key>::lt(after[i].0, after[j].0));
            }
            assert forall|key: u64| #[trigger] requires_key(r@, key) <==> requires_key(was, key) || key == req@.0 by {
                lemma_has_key(before, was, key);
                lemma_has_key(after, r@, key);
                assert(required@.dom().contains(key) <==> ordered::has_key::<u64, &'static str>(after, key));
            }
            assert forall|i: int| 0 <= i < r@.len() implies if (#[trigger] r@[i]).0 == req@.0 {
                r@[i].1 == req@.1
            } else {
                was.contains(r@[i])
            } by {
                let key = after[i].0;
                ordered::lemma_entry::<u64, &'static str>(after, i);
                assert(required@[key] == after[i].1);
                if key != req@.0 {
                    assert(ordered::has_key::<u64, &'static str>(before, key));
                    let j = ordered::place_of::<u64, &'static str>(before, key);
                    ordered::lemma_entry::<u64, &'static str>(before, j);
                    assert(was[j] == r@[i]);
                }
            }
        }
        r
    }

    /// Whether a type is required.
    #[must_use]
    pub fn requires_type(&self, key: u64) -> (r: bool)
        ensures
            r == requires_key(self@, key),
    {
        let r = self.required.get(&key).is_some();
        proof {
            lemma_has_key(self.required.entries(), self@, key);
            assert(self.required@.dom().contains(key) <==> ordered::has_key::<u64, &'static str>(
                self.required.entries(),
                key,
            ));
        }
        r
    }

    /// The number of types that are required.
    #[must_use]
    pub fn len(&self) -> (r: usize)
        ensures
            r == self@.len(),
    {
        self.required.len()
    }

    /// Whether nothing is required.
    #[must_use]
    pub fn is_empty(&self) -> (r: bool)
        ensures
            r == (self@.len() == 0),
    {
        self.required.len() == 0
    }

    /// The requirement at a place, in ascending order.
    #[must_use]
    pub fn at(&self, i: usize) -> (r: ResourceRequirement)
        requires
            i < self@.len(),
        ensures
            r@ == self@[i as int],
    {
        ResourceRequirement { key: *self.required.key_at(i), name: *self.required.value_at(i) }
    }

    /// The requirements, in ascending order.
    #[must_use]
    pub fn iter(&self) -> (r: Vec<ResourceRequirement>)
        ensures
            r@.map_values(|q: ResourceRequirement| q@) == self@,
    {
        let mut out: Vec<ResourceRequirement> = Vec::new();
        let mut i: usize = 0;
        while i < self.len()
            invariant
                i <= self@.len(),
                out.len() == i,
                forall|k: int| 0 <= k < i ==> (#[trigger] out@[k])@ == self@[k],
            decreases self@.len() - i,
        {
            out.push(self.at(i));
            i = i + 1;
        }
        assert(out@.map_values(|q: ResourceRequirement| q@) =~= self@);
        out
    }
}

proof fn lemma_has_key(entries: Seq<(u64, &'static str)>, required: Seq<(u64, Seq<char>)>, key: u64)
    requires
        required == entries.map_values(|e: (u64, &'static str)| (e.0, e.1@)),
    ensures
        requires_key(required, key) == ordered::has_key::<u64, &'static str>(entries, key),
{
    if requires_key(required, key) {
        let i = choose|i: int| 0 <= i < required.len() && (#[trigger] required[i]).0 == key;
        assert(entries[i].0 == key);
    }
    if ordered::has_key::<u64, &'static str>(entries, key) {
        let i = ordered::place_of::<u64, &'static str>(entries, key);
        assert(required[i].0 == key);
    }
}

/// What a node declares: the node, and what it requires.
#[verifier::ext_equal]
pub struct DeclView {
    pub node: NodeId,
    pub required: Seq<(u64, Seq<char>)>,
}

/// The contents of declarations.
pub open spec fn decl_views(declarations: Seq<(NodeId, ResourceRequirements)>) -> Seq<DeclView> {
    declarations.map_values(|d: (NodeId, ResourceRequirements)| DeclView { node: d.0, required: d.1@ })
}

/// One requirement of one node.
#[verifier::ext_equal]
pub struct Demand {
    pub node: NodeId,
    pub key: u64,
    pub name: Seq<char>,
}

/// The first `k` requirements of a node.
pub open spec fn demands(node: NodeId, required: Seq<(u64, Seq<char>)>, k: int) -> Seq<Demand> {
    Seq::new(k as nat, |i: int| Demand { node, key: required[i].0, name: required[i].1 })
}

/// The requirements of all nodes in a row.
pub open spec fn flat(decls: Seq<DeclView>) -> Seq<Demand>
    decreases decls.len(),
{
    if decls.len() == 0 {
        Seq::empty()
    } else {
        flat(decls.drop_last()) + demands(
            decls.last().node,
            decls.last().required,
            decls.last().required.len() as int,
        )
    }
}

/// Whether some node requires a type.
pub open spec fn demanded(all: Seq<Demand>, key: u64) -> bool {
    exists|i: int| 0 <= i < all.len() && (#[trigger] all[i]).key == key
}

/// The nodes that require a type, each once, in the order of the declarations.
pub open spec fn nodes_of(all: Seq<Demand>, key: u64) -> Seq<NodeId>
    decreases all.len(),
{
    if all.len() == 0 {
        Seq::empty()
    } else {
        let before = nodes_of(all.drop_last(), key);
        if all.last().key == key && !before.contains(all.last().node) {
            before.push(all.last().node)
        } else {
            before
        }
    }
}

/// The name by which a type is first required.
pub open spec fn name_of(all: Seq<Demand>, key: u64) -> Seq<char>
    decreases all.len(),
{
    if all.len() == 0 {
        Seq::empty()
    } else if demanded(all.drop_last(), key) {
        name_of(all.drop_last(), key)
    } else {
        all.last().name
    }
}

/// Whether errors report exactly the types that are required and not known, in ascending
/// order, each with its name and all the nodes that require it.
pub open spec fn reported(all: Seq<Demand>, known: Set<u64>, errors: Seq<MissingView>) -> bool {
    &&& forall|i: int, j: int| 0 <= i < j < errors.len() ==> (#[trigger] errors[i]).key < (#[trigger] errors[j]).key
    &&& forall|i: int| 0 <= i < errors.len() ==> {
        let e = #[trigger] errors[i];
        !known.contains(e.key) && demanded(all, e.key) && e.name == name_of(all, e.key) && e.nodes == nodes_of(
            all,
            e.key,
        )
    }
    &&& forall|key: u64| #[trigger]
        demanded(all, key) && !known.contains(key) ==> exists|i: int|
            0 <= i < errors.len() && (#[trigger] errors[i]).key == key
}

/// One more requirement.
proof fn lemma_one_more(all: Seq<Demand>, item: Demand, key: u64)
    ensures
        demanded(all.push(item), key) == (demanded(all, key) || item.key == key),
        key != item.key ==> nodes_of(all.push(item), key) == nodes_of(all, key),
        key == item.key && nodes_of(all, key).contains(item.node) ==> nodes_of(all.push(item), key) == nodes_of(all, key),
        key == item.key && !nodes_of(all, key).contains(item.node) ==> nodes_of(all.push(item), key) == nodes_of(
            all,
            key,
        ).push(item.node),
        demanded(all, key) ==> name_of(all.push(item), key) == name_of(all, key),
        !demanded(all, key) && key == item.key ==> name_of(all.push(item), key) == item.name && nodes_of(all, key)
            == Seq::<NodeId>::empty(),
{
    let more = all.push(item);
    assert(more.drop_last() =~= all);
    if demanded(all, key) {
        let i = choose|i: int| 0 <= i < all.len() && (#[trigger] all[i]).key == key;
        assert(more[i].key == key);
    }
    if item.key == key {
        assert(more[all.len() as int].key == key);
    }
    if demanded(more, key) && item.key != key {
        let i = choose|i: int| 0 <= i < more.len() && (#[trigger] more[i]).key == key;
        assert(all[i].key == key);
    }
    if !demanded(all, key) {
        lemma_no_nodes(all, key);
    }
}

proof fn lemma_no_nodes(all: Seq<Demand>, key: u64)
    requires
        !demanded(all, key),
    ensures
        nodes_of(all, key) == Seq::<NodeId>::empty(),
    decreases all.len(),
{
    if all.len() > 0 {
        let less = all.drop_last();
        if demanded(less, key) {
            let i = choose|i: int| 0 <= i < less.len() && (#[trigger] less[i]).key == key;
            assert(all[i].key == key);
        }
        assert(all[all.len() - 1].key != key);
        lemma_no_nodes(less, key);
    }
}

/// A requirement of a known type changes no report.
proof fn lemma_known(all: Seq<Demand>, known: Set<u64>, errors: Seq<MissingView>, item: Demand)
    requires
        reported(all, known, errors),
        known.contains(item.key),
    ensures
        reported(all.push(item), known, errors),
{
    let more = all.push(item);
    assert forall|i: int| 0 <= i < errors.len() implies ({
        let e = #[trigger] errors[i];
        !known.contains(e.key) && demanded(more, e.key) && e.name == name_of(more, e.key) && e.nodes == nodes_of(
            more,
            e.key,
        )
    }) by {
        lemma_one_more(all, item, errors[i].key);
    }
    assert forall|key: u64| #[trigger] demanded(more, key) && !known.contains(key) implies exists|i: int|
        0 <= i < errors.len() && (#[trigger] errors[i]).key == key by {
        lemma_one_more(all, item, key);
    }
}

/// Notes that a node requires a type that is not known.
fn note_missing(
    errors: &mut Vec<MissingResourceError>,
    req: ResourceRequirement,
    node: NodeId,
    Ghost(all): Ghost<Seq<Demand>>,
    Ghost(known): Ghost<Set<u64>>,
)
    requires
        reported(all, known, missing_views(old(errors)@)),
        !known.contains(req@.0),
    ensures
        reported(
            all.push(Demand { node, key: req@.0, name: req@.1 }),
            known,
            missing_views(final(errors)@),
        ),
{
    let ghost item = Demand { node, key: req@.0, name: req@.1 };
    let ghost more = all.push(item);
    let ghost start = missing_views(errors@);
    let mut i: usize = 0;
    while i < errors.len() && errors[i].key < req.key
        invariant
            i <= errors.len(),
            item.key == req.key,
            start == missing_views(errors@),
            start == missing_views(old(errors)@),
            reported(all, known, start),
            forall|j: int| 0 <= j < i ==> (#[trigger] start[j]).key < item.key,
        ensures
            i < errors.len() ==> start[i as int].key >= item.key,
        decreases errors.len() - i,
    {
        assert(start[i as int] == errors@[i as int]@);
        i = i + 1;
    }
    if i < errors.len() && errors[i].key == req.key {
        let ghost was = errors@[i as int]@;
        assert(start[i as int] == was);
        let mut found = false;
        let mut k: usize = 0;
        while k < errors[i].requiring_nodes.len()
            invariant
                i < errors.len(),
                start == missing_views(errors@),
                start == missing_views(old(errors)@),
                reported(all, known, start),
                was == errors@[i as int]@,
                k <= was.nodes.len(),
                found == exists|j: int| 0 <= j < k && #[trigger] was.nodes[j] == node,
            decreases was.nodes.len() - k,
        {
            if errors[i].requiring_nodes[k] == node {
                found = true;
            }
            k = k + 1;
        }
        proof {
            assert(found == was.nodes.contains(node));
            lemma_one_more(all, item, item.key);
        }
        if !found {
            errors[i].requiring_nodes.push(node);
        }
        proof {
            let after = missing_views(errors@);
            let now = MissingView { nodes: nodes_of(more, item.key), ..was };
            assert(after =~= start.update(i as int, now));
            lemma_updated(all, known, start, item, i as int);
        }
    } else {
        let mut requiring_nodes: Vec<NodeId> = Vec::new();
        requiring_nodes.push(node);
        let ghost fresh = MissingView { key: item.key, name: item.name, nodes: seq![node] };
        errors.insert(i, MissingResourceError { key: req.key, name: req.name, requiring_nodes });
        proof {
            let after = missing_views(errors@);
            assert(after =~= start.insert(i as int, fresh));
            lemma_added(all, known, start, item, i as int);
        }
    }
}

/// A report after one more node requires a type that it lists.
proof fn lemma_updated(all: Seq<Demand>, known: Set<u64>, errors: Seq<MissingView>, item: Demand, i: int)
    requires
        reported(all, known, errors),
        0 <= i < errors.len(),
        errors[i].key == item.key,
    ensures
        reported(
            all.push(item),
            known,
            errors.update(i, MissingView { nodes: nodes_of(all.push(item), item.key), ..errors[i] }),
        ),
{
    let more = all.push(item);
    let after = errors.update(i, MissingView { nodes: nodes_of(more, item.key), ..errors[i] });
    assert forall|a: int, b: int| 0 <= a < b < after.len() implies (#[trigger] after[a]).key < (#[trigger] after[b]).key by {
        assert(errors[a].key < errors[b].key);
    }
    assert forall|a: int| 0 <= a < after.len() implies ({
        let e = #[trigger] after[a];
        !known.contains(e.key) && demanded(more, e.key) && e.name == name_of(more, e.key) && e.nodes == nodes_of(
            more,
            e.key,
        )
    }) by {
        lemma_one_more(all, item, errors[a].key);
        if a != i {
            if a < i {
                assert(errors[a].key < errors[i].key);
            } else {
                assert(errors[i].key < errors[a].key);
            }
        }
    }
    assert forall|key: u64| #[trigger] demanded(more, key) && !known.contains(key) implies exists|a: int|
        0 <= a < after.len() && (#[trigger] after[a]).key == key by {
        lemma_one_more(all, item, key);
        if key == item.key {
            assert(after[i].key == key);
        } else {
            let a = choose|a: int| 0 <= a < errors.len() && (#[trigger] errors[a]).key == key;
            assert(after[a].key == key);
        }
    }
}

/// A report after a node requires a type that it does not list yet.
proof fn lemma_added(all: Seq<Demand>, known: Set<u64>, errors: Seq<MissingView>, item: Demand, i: int)
    requires
        reported(all, known, errors),
        !known.contains(item.key),
        0 <= i <= errors.len(),
        forall|j: int| 0 <= j < i ==> (#[trigger] errors[j]).key < item.key,
        i < errors.len() ==> errors[i].key > item.key,
    ensures
        reported(
            all.push(item),
            known,
            errors.insert(i, MissingView { key: item.key, name: item.name, nodes: seq![item.node] }),
        ),
{
    let more = all.push(item);
    let fresh = MissingView { key: item.key, name: item.name, nodes: seq![item.node] };
    let after = errors.insert(i, fresh);
    assert forall|j: int| i <= j < errors.len() implies (#[trigger] errors[j]).key > item.key by {
        if j > i {
            assert(errors[i].key < errors[j].key);
        }
    }
    if demanded(all, item.key) {
        let j = choose|j: int| 0 <= j < errors.len() && (#[trigger] errors[j]).key == item.key;
        assert(false);
    }
    lemma_one_more(all, item, item.key);
    assert(Seq::<NodeId>::empty().push(item.node) =~= seq![item.node]);
    assert forall|a: int, b: int| 0 <= a < b < after.len() implies (#[trigger] after[a]).key < (#[trigger] after[b]).key by {
        if a < i && b < i {
            assert(errors[a].key < errors[b].key);
        } else if a < i && b > i {
            assert(errors[a].key < item.key);
            assert(errors[b - 1].key > item.key);
        } else if a > i {
            assert(errors[a - 1].key < errors[b - 1].key);
        } else if a == i {
            assert(errors[b - 1].key > item.key);
        }
    }
    assert forall|a: int| 0 <= a < after.len() implies ({
        let e = #[trigger] after[a];
        !known.contains(e.key) && demanded(more, e.key) && e.name == name_of(more, e.key) && e.nodes == nodes_of(
            more,
            e.key,
        )
    }) by {
        if a < i {
            assert(errors[a].key < item.key);
            lemma_one_more(all, item, errors[a].key);
        } else if a > i {
            assert(errors[a - 1].key > item.key);
            lemma_one_more(all, item, errors[a - 1].key);
        }
    }
    assert forall|key: u64| #[trigger] demanded(more, key) && !known.contains(key) implies exists|a: int|
        0 <= a < after.len() && (#[trigger] after[a]).key == key by {
        lemma_one_more(all, item, key);
        if key == item.key {
            assert(after[i].key == key);
        } else {
            let a = choose|a: int| 0 <= a < errors.len() && (#[trigger] errors[a]).key == key;
            if a < i {
                assert(after[a].key == key);
            } else {
                assert(after[a + 1].key == key);
            }
        }
    }
}

/// A report is the only one: what is declared and what is known determine it.
pub proof fn law_report_is_determined(all: Seq<Demand>, known: Set<u64>, a: Seq<MissingView>, b: Seq<MissingView>)
    requires
        reported(all, known, a),
        reported(all, known, b),
    ensures
        a == b,
{
    lemma_report_prefix(all, known, a, b, a.len() as int);
    lemma_report_prefix(all, known, b, a, b.len() as int);
    assert(a =~= b);
}

proof fn lemma_report_prefix(all: Seq<Demand>, known: Set<u64>, a: Seq<MissingView>, b: Seq<MissingView>, k: int)
    requires
        reported(all, known, a),
        reported(all, known, b),
        0 <= k <= a.len(),
    ensures
        k <= b.len(),
        forall|i: int| 0 <= i < k ==> a[i] == b[i],
    decreases k,
{
    if k > 0 {
        lemma_report_prefix(all, known, a, b, k - 1);
        let key = a[k - 1].key;
        assert(demanded(all, key));
        let j = choose|j: int| 0 <= j < b.len() && (#[trigger] b[j]).key == key;
        if j < k - 1 {
            assert(a[j] == b[j]);
            assert(a[j].key < a[k - 1].key);
        }
        if j > k - 1 {
            let other = b[k - 1].key;
            assert(b[k - 1].key < b[j].key);
            assert(demanded(all, other));
            let m = choose|m: int| 0 <= m < a.len() && (#[trigger] a[m]).key == other;
            if m < k - 1 {
                assert(a[m] == b[m]);
                assert(b[m].key < b[k - 1].key);
            } else if m > k - 1 {
                assert(a[k - 1].key < a[m].key);
            }
        }
        assert(a[k - 1] =~= b[k - 1]);
    }
}

/// A run passes the check exactly when every required type is registered.
pub proof fn law_check_passes_when_all_is_known(all: Seq<Demand>, known: Set<u64>)
    ensures
        reported(all, known, Seq::empty()) <==> forall|i: int|
            0 <= i < all.len() ==> known.contains((#[trigger] all[i]).key),
{
    if reported(all, known, Seq::empty()) {
        assert forall|i: int| 0 <= i < all.len() implies known.contains((#[trigger] all[i]).key) by {
            assert(demanded(all, all[i].key));
        }
    }
    if forall|i: int| 0 <= i < all.len() ==> known.contains((#[trigger] all[i]).key) {
        assert forall|key: u64| #[trigger] demanded(all, key) implies known.contains(key) by {
            let i = choose|i: int| 0 <= i < all.len() && (#[trigger] all[i]).key == key;
            assert(known.contains(all[i].key));
        }
    }
}

/// Whether a node declares that it requires a type.
pub open spec fn declares(decls: Seq<DeclView>, node: NodeId, key: u64) -> bool {
    exists|i: int, j: int|
        0 <= i < decls.len() && 0 <= j < decls[i].required.len() && decls[i].node == node && (
        #[trigger] decls[i].required[j]).0 == key
}

proof fn lemma_flat(decls: Seq<DeclView>, node: NodeId, key: u64)
    ensures
        declares(decls, node, key) <==> exists|m: int|
            0 <= m < flat(decls).len() && (#[trigger] flat(decls)[m]).node == node && flat(decls)[m].key == key,
    decreases decls.len(),
{
    if decls.len() > 0 {
        let front = decls.drop_last();
        let last = decls.last();
        let before = flat(front);
        let own = demands(last.node, last.required, last.required.len() as int);
        let all = flat(decls);
        lemma_flat(front, node, key);
        if declares(decls, node, key) {
            let (i, j) = choose|i: int, j: int|
                0 <= i < decls.len() && 0 <= j < decls[i].required.len() && decls[i].node == node && (
                #[trigger] decls[i].required[j]).0 == key;
            if i < front.len() {
                assert(front[i].required[j].0 == key);
                let m = choose|m: int| 0 <= m < before.len() && (#[trigger] before[m]).node == node && before[m].key == key;
                assert(all[m] == before[m]);
            } else {
                assert(all[before.len() + j] == own[j]);
            }
        }
        if exists|m: int| 0 <= m < all.len() && (#[trigger] all[m]).node == node && all[m].key == key {
            let m = choose|m: int| 0 <= m < all.len() && (#[trigger] all[m]).node == node && all[m].key == key;
            if m < before.len() {
                assert(before[m] == all[m]);
                let (i, j) = choose|i: int, j: int|
                    0 <= i < front.len() && 0 <= j < front[i].required.len() && front[i].node == node && (
                    #[trigger] front[i].required[j]).0 == key;
                assert(decls[i].required[j].0 == key);
            } else {
                let j = m - before.len();
                assert(own[j] == all[m]);
                assert(decls[decls.len() - 1].required[j].0 == key);
            }
        }
    }
}

proof fn lemma_nodes_of(all: Seq<Demand>, key: u64, node: NodeId)
    ensures
        nodes_of(all, key).contains(node) <==> exists|m: int|
            0 <= m < all.len() && (#[trigger] all[m]).node == node && all[m].key == key,
        nodes_of(all, key).no_duplicates(),
    decreases all.len(),
{
    if all.len() > 0 {
        let less = all.drop_last();
        let before = nodes_of(less, key);
        let now = nodes_of(all, key);
        lemma_nodes_of(less, key, node);
        if before.contains(node) {
            let m = choose|m: int| 0 <= m < less.len() && (#[trigger] less[m]).node == node && less[m].key == key;
            assert(all[m] == less[m]);
            let k = choose|k: int| 0 <= k < before.len() && before[k] == node;
            assert(now[k] == node);
        }
        if now.contains(node) && !before.contains(node) {
            let k = choose|k: int| 0 <= k < now.len() && now[k] == node;
            if k < before.len() {
                assert(before[k] == node);
            }
            assert(all[all.len() - 1].node == node && all[all.len() - 1].key == key);
        }
        if exists|m: int| 0 <= m < all.len() && (#[trigger] all[m]).node == node && all[m].key == key {
            let m = choose|m: int| 0 <= m < all.len() && (#[trigger] all[m]).node == node && all[m].key == key;
            if m < less.len() {
                assert(less[m] == all[m]);
            } else if !before.contains(node) {
                assert(now[before.len() as int] == node);
            }
        }
    } else {
        assert(nodes_of(all, key) =~= Seq::<NodeId>::empty());
    }
}

/// Every type that some node declares to require and that is not registered is reported,
/// once, with exactly the nodes that declare it, each once; and nothing else is. Nothing is
/// reported exactly where every declared type is registered.
pub proof fn law_what_is_missing_is_reported(
    decls: Seq<DeclView>,
    known: Set<u64>,
    errors: Seq<MissingView>,
    node: NodeId,
    key: u64,
)
    requires
        reported(flat(decls), known, errors),
    ensures
        declares(decls, node, key) && !known.contains(key) <==> exists|e: int|
            0 <= e < errors.len() && (#[trigger] errors[e]).key == key && errors[e].nodes.contains(node),
        forall|e: int|
            0 <= e < errors.len() ==> !known.contains((#[trigger] errors[e]).key) && errors[e].nodes.len() > 0
                && errors[e].nodes.no_duplicates(),
        forall|e: int, f: int| 0 <= e < f < errors.len() ==> (#[trigger] errors[e]).key < (#[trigger] errors[f]).key,
{
    let all = flat(decls);
    lemma_flat(decls, node, key);
    lemma_nodes_of(all, key, node);
    if declares(decls, node, key) && !known.contains(key) {
        let m = choose|m: int| 0 <= m < all.len() && (#[trigger] all[m]).node == node && all[m].key == key;
        assert(demanded(all, key));
        let e = choose|e: int| 0 <= e < errors.len() && (#[trigger] errors[e]).key == key;
        assert(errors[e].nodes.contains(node));
    }
    assert forall|e: int| 0 <= e < errors.len() implies !known.contains((#[trigger] errors[e]).key) && errors[e].nodes.len()
        > 0 && errors[e].nodes.no_duplicates() by {
        let k = errors[e].key;
        assert(demanded(all, k));
        let m = choose|m: int| 0 <= m < all.len() && (#[trigger] all[m]).key == k;
        lemma_nodes_of(all, k, all[m].node);
        assert(all[m].node == all[m].node && all[m].key == k);
    }
}

/// What nodes require is listed node by node, and for each node in the order of its own
/// list, with the name that the node gives it.
pub proof fn law_requirements_are_listed_node_by_node(decls: Seq<DeclView>, decl: DeclView, j: int)
    ensures
        ({
            let before = flat(decls);
            let after = flat(decls.push(decl));
            &&& flat(Seq::empty()).len() == 0
            &&& after.len() == before.len() + decl.required.len()
            &&& after.take(before.len() as int) == before
            &&& 0 <= j < decl.required.len() ==> {
                let own = after[before.len() + j];
                own.node == decl.node && own.key == decl.required[j].0 && own.name == decl.required[j].1
            }
        }),
{
    assert(decls.push(decl).drop_last() =~= decls);
    assert(flat(decls.push(decl)).take(flat(decls).len() as int) =~= flat(decls));
}

/// A missing type is named as the first node that requires it names it, and its nodes are
/// listed in the order in which they are declared.
pub proof fn law_a_missing_type_is_named_as_first_declared(all: Seq<Demand>, item: Demand, key: u64)
    ensures
        nodes_of(Seq::empty(), key).len() == 0,
        item.key != key ==> nodes_of(all.push(item), key) == nodes_of(all, key),
        item.key == key && nodes_of(all, key).contains(item.node) ==> nodes_of(all.push(item), key) == nodes_of(all, key),
        item.key == key && !nodes_of(all, key).contains(item.node) ==> nodes_of(all.push(item), key) == nodes_of(all, key)
            + seq![item.node],
        (exists|m: int| 0 <= m < all.len() && (#[trigger] all[m]).key == key) ==> name_of(all.push(item), key) == name_of(
            all,
            key,
        ),
        item.key == key && !(exists|m: int| 0 <= m < all.len() && (#[trigger] all[m]).key == key) ==> name_of(
            all.push(item),
            key,
        ) == item.name,
{
    lemma_one_more(all, item, key);
    assert(nodes_of(all, key).push(item.node) =~= nodes_of(all, key) + seq![item.node]);
}

/// A missing type is told with its name and how many nodes require it, and which; errors
/// stand behind each other, each after a semicolon.
pub proof fn law_a_missing_type_is_told(errors: Seq<MissingView>, e: MissingView, nodes: Seq<NodeId>, node: NodeId)
    ensures
        e.rendered() == "resource `"@ + e.name + "` is required but was never registered; required by "@ + text::decimal(
            e.nodes.len(),
        ) + " node(s): ["@ + nodes_text(e.nodes) + "]"@,
        each_rendered(errors.push(e)) == each_rendered(errors) + "; "@ + e.rendered(),
        each_rendered(Seq::empty()).len() == 0,
        nodes_text(Seq::empty()).len() == 0,
        nodes_text(seq![node]) == "NodeId("@ + text::decimal(node@ as nat) + ")"@,
        nodes.len() > 0 ==> nodes_text(nodes.push(node)) == nodes_text(nodes) + ", "@ + "NodeId("@ + text::decimal(
            node@ as nat,
        ) + ")"@,
{
    assert(errors.push(e).drop_last() =~= errors);
    assert(nodes.push(node).drop_last() =~= nodes);
    assert(nodes_text(seq![node]) =~= "NodeId("@ + text::decimal(node@ as nat) + ")"@);
}

/// Lists what nodes require, node by node.
#[must_use]
pub fn surface_requirements(declarations: &[(NodeId, ResourceRequirements)]) -> (r: Vec<(NodeId, &'static str)>)
    ensures
        r.len() == flat(decl_views(declarations@)).len(),
        forall|i: int|
            0 <= i < r.len() ==> (#[trigger] r@[i]).0 == flat(decl_views(declarations@))[i].node && r@[i].1@ == flat(
                decl_views(declarations@),
            )[i].name,
{
    let ghost decls = decl_views(declarations@);
    let mut out: Vec<(NodeId, &'static str)> = Vec::new();
    let mut i: usize = 0;
    assert(decls.take(0) =~= Seq::<DeclView>::empty());
    while i < declarations.len()
        invariant
            i <= declarations.len(),
            decls == decl_views(declarations@),
            out.len() == flat(decls.take(i as int)).len(),
            forall|k: int|
                0 <= k < out.len() ==> (#[trigger] out@[k]).0 == flat(decls.take(i as int))[k].node && out@[k].1@
                    == flat(decls.take(i as int))[k].name,
        decreases declarations.len() - i,
    {
        let node: NodeId = declarations[i].0;
        let required = &declarations[i].1;
        let ghost before = flat(decls.take(i as int));
        let ghost reqs = declarations@[i as int].1@;
        let mut k: usize = 0;
        while k < required.len()
            invariant
                k <= reqs.len(),
                reqs == required@,
                out.len() == before.len() + k,
                forall|m: int|
                    0 <= m < out.len() ==> (#[trigger] out@[m]).0 == (before + demands(node, reqs, k as int))[m].node
                        && out@[m].1@ == (before + demands(node, reqs, k as int))[m].name,
            decreases reqs.len() - k,
        {
            let req = required.at(k);
            out.push((node, req.name()));
            k = k + 1;
        }
        proof {
            assert(decls.take(i + 1).drop_last() =~= decls.take(i as int));
            assert(decls.take(i + 1).last() == decls[i as int]);
        }
        i = i + 1;
    }
    assert(decls.take(i as int) =~= decls);
    out
}

} // verus!
