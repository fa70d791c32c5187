//! Paths from one Roblox instance to another.
use vstd::prelude::*;

verus! {

/// Where an instance path starts.
#[derive(Debug, Clone, Copy, PartialEq, Eq, Structural)]
pub enum InstancePathRoot {
    /// The root of the instance tree, the DataModel.
    Root,
    /// The script that holds the path.
    Script,
}

/// One step of an instance path.
#[derive(Debug, PartialEq, Eq)]
pub enum InstancePathComponent {
    /// To the parent of the instance.
    Parent,
    /// To the child of the instance with the given name.
    Child(String),
}

/// What an [`InstancePathComponent`] stands for.
pub enum StepView {
    Parent,
    Child(Seq<char>),
}

/// What an [`InstancePath`] stands for: its start, and the steps from there.
pub struct InstancePathView {
    pub root: InstancePathRoot,
    pub components: Seq<StepView>,
}

impl View for InstancePathComponent {
    type V = StepView;

    open spec fn view(&self) -> StepView {
        match self {
            InstancePathComponent::Parent => StepView::Parent,
            InstancePathComponent::Child(name) => StepView::Child(name@),
        }
    }
}

/// What the steps of a path stand for.
pub open spec fn step_views(components: Seq<InstancePathComponent>) -> Seq<StepView> {
    components.map_values(|component: InstancePathComponent| component@)
}

impl InstancePathView {
    /// The path that stays where it starts.
    pub open spec fn from(root: InstancePathRoot) -> InstancePathView {
        InstancePathView { root, components: Seq::empty() }
    }

    /// The path with one more step.
    pub open spec fn then_step(self, step: StepView) -> InstancePathView {
        InstancePathView { root: self.root, components: self.components.push(step) }
    }

    /// The path with more steps.
    pub open spec fn then_steps(self, steps: Seq<StepView>) -> InstancePathView {
        InstancePathView { root: self.root, components: self.components + steps }
    }
}

/// A path from the DataModel, or from a script, to an instance.
#[derive(Debug, PartialEq, Eq)]
pub struct InstancePath {
    root: InstancePathRoot,
    components: Vec<InstancePathComponent>,
}

impl View for InstancePath {
    type V = InstancePathView;

    closed spec fn view(&self) -> InstancePathView {
        InstancePathView {
            root: self.root,
            components: step_views(self.components@),
        }
    }
}

impl Clone for InstancePath {
    fn clone(&self) -> (copy: Self)
        ensures
            copy@ == self@,
    {
        let mut copy = InstancePath { root: self.root, components: Vec::new() };
        let mut i: usize = 0;
        while i < self.components.len()
            invariant
                i <= self.components.len(),
                copy@.root == self@.root,
                copy@.components =~= self@.components.take(i as int),
            decreases self.components.len() - i,
        {
            match &self.components[i] {
                InstancePathComponent::Parent => copy.parent(),
                InstancePathComponent::Child(name) => copy.child(name.as_str()),
            }
            i += 1;
        }
        assert(copy@.components =~= self@.components);
        copy
    }
}

impl InstancePath {
    /// The path from the DataModel to itself.
    pub fn from_root() -> (path: InstancePath)
        ensures
            path@ == InstancePathView::from(InstancePathRoot::Root),
    {
        let path = InstancePath { root: InstancePathRoot::Root, components: Vec::new() };
        assert(path@.components =~= Seq::empty());
        path
    }

    /// The path from a script to itself.
    pub fn from_script() -> (path: InstancePath)
        ensures
            path@ == InstancePathView::from(InstancePathRoot::Script),
    {
        let path = InstancePath { root: InstancePathRoot::Script, components: Vec::new() };
        assert(path@.components =~= Seq::empty());
        path
    }

    /// Goes on to the parent.
    pub fn parent(&mut self)
        ensures
            final(self)@ == old(self)@.then_step(StepView::Parent),
    {
        self.components.push(InstancePathComponent::Parent);
        assert(self@.components =~= old(self)@.components.push(StepView::Parent));
    }

    /// Goes on to the child with the given name.
    pub fn child(&mut self, child_name: &str)
        ensures
            final(self)@ == old(self)@.then_step(StepView::Child(child_name@)),
    {
        self.components.push(InstancePathComponent::Child(child_name.to_owned()));
        assert(self@.components =~= old(self)@.components.push(StepView::Child(child_name@)));
    }

    /// Where the path starts.
    pub fn root(&self) -> (root: InstancePathRoot)
        ensures
            root == self@.root,
    {
        self.root
    }

    /// The steps of the path.
    pub fn components(&self) -> (components: &Vec<InstancePathComponent>)
        ensures
            step_views(components@) == self@.components,
    {
        &self.components
    }
}

} // verus!
