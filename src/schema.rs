use vstd::prelude::*;

verus! {

/// The kinds of top-level declaration a schema fragment may contain.
#[derive(Clone, Copy, Debug, PartialEq, Eq, Structural)]
pub enum Kind {
    Datasource,
    Generator,
    Enum,
    CompositeType,
    Model,
    TypeAlias,
}

/// One `key = value` line of a declaration body; the value is kept as written.
#[derive(Clone, Debug)]
pub struct Property {
    pub key: String,
    pub value: String,
}

impl View for Property {
    type V = (Seq<char>, Seq<char>);

    open spec fn view(&self) -> (Seq<char>, Seq<char>) {
        (self.key@, self.value@)
    }
}

/// A named declaration with a body of properties: a datasource, a generator,
/// a model, a composite type or a type alias.
#[derive(Clone, Debug)]
pub struct Block {
    pub name: String,
    pub properties: Vec<Property>,
}

/// The mathematical value of a [`Block`].
pub struct BlockView {
    pub name: Seq<char>,
    pub properties: Seq<(Seq<char>, Seq<char>)>,
}

impl View for Block {
    type V = BlockView;

    open spec fn view(&self) -> BlockView {
        BlockView { name: self.name@, properties: self.properties@.map_values(|p: Property| p@) }
    }
}

/// An enum declaration: its name and the names of its values, in order.
#[derive(Clone, Debug)]
pub struct EnumBlock {
    pub name: String,
    pub values: Vec<String>,
}

/// The mathematical value of an [`EnumBlock`].
pub struct EnumView {
    pub name: Seq<char>,
    pub values: Seq<Seq<char>>,
}

pub open spec fn strings_view(v: Seq<String>) -> Seq<Seq<char>> {
    v.map_values(|s: String| s@)
}

impl View for EnumBlock {
    type V = EnumView;

    open spec fn view(&self) -> EnumView {
        EnumView { name: self.name@, values: strings_view(self.values@) }
    }
}

/// A top-level declaration of a schema document.
#[derive(Clone, Debug)]
pub enum Declaration {
    Datasource(Block),
    Generator(Block),
    Enum(EnumBlock),
    CompositeType(Block),
    Model(Block),
    TypeAlias(Block),
}

/// The mathematical value of a [`Declaration`].
pub enum DeclarationView {
    Datasource(BlockView),
    Generator(BlockView),
    Enum(EnumView),
    CompositeType(BlockView),
    Model(BlockView),
    TypeAlias(BlockView),
}

impl DeclarationView {
    pub open spec fn kind(self) -> Kind {
        match self {
            DeclarationView::Datasource(_) => Kind::Datasource,
            DeclarationView::Generator(_) => Kind::Generator,
            DeclarationView::Enum(_) => Kind::Enum,
            DeclarationView::CompositeType(_) => Kind::CompositeType,
            DeclarationView::Model(_) => Kind::Model,
            DeclarationView::TypeAlias(_) => Kind::TypeAlias,
        }
    }

    pub open spec fn name(self) -> Seq<char> {
        match self {
            DeclarationView::Datasource(b) => b.name,
            DeclarationView::Generator(b) => b.name,
            DeclarationView::Enum(e) => e.name,
            DeclarationView::CompositeType(b) => b.name,
            DeclarationView::Model(b) => b.name,
            DeclarationView::TypeAlias(b) => b.name,
        }
    }
}

impl View for Declaration {
    type V = DeclarationView;

    open spec fn view(&self) -> DeclarationView {
        match self {
            Declaration::Datasource(b) => DeclarationView::Datasource(b@),
            Declaration::Generator(b) => DeclarationView::Generator(b@),
            Declaration::Enum(e) => DeclarationView::Enum(e@),
            Declaration::CompositeType(b) => DeclarationView::CompositeType(b@),
            Declaration::Model(b) => DeclarationView::Model(b@),
            Declaration::TypeAlias(b) => DeclarationView::TypeAlias(b@),
        }
    }
}

pub open spec fn declarations_view(v: Seq<Declaration>) -> Seq<DeclarationView> {
    v.map_values(|d: Declaration| d@)
}

/// One parsed schema file: the path it was read from and its declarations, in order.
#[derive(Clone, Debug)]
pub struct Fragment {
    pub path: String,
    pub declarations: Vec<Declaration>,
}

/// The mathematical value of a [`Fragment`].
pub struct FragmentView {
    pub path: Seq<char>,
    pub declarations: Seq<DeclarationView>,
}

impl View for Fragment {
    type V = FragmentView;

    open spec fn view(&self) -> FragmentView {
        FragmentView { path: self.path@, declarations: declarations_view(self.declarations@) }
    }
}

pub open spec fn fragments_view(v: Seq<Fragment>) -> Seq<FragmentView> {
    v.map_values(|f: Fragment| f@)
}

impl Declaration {
    /// The kind of this declaration.
    pub fn kind(&self) -> (r: Kind)
        ensures
            r == self@.kind(),
    {
        match self {
            Declaration::Datasource(_) => Kind::Datasource,
            Declaration::Generator(_) => Kind::Generator,
            Declaration::Enum(_) => Kind::Enum,
            Declaration::CompositeType(_) => Kind::CompositeType,
            Declaration::Model(_) => Kind::Model,
            Declaration::TypeAlias(_) => Kind::TypeAlias,
        }
    }

    /// The name this declaration was given.
    pub fn name(&self) -> (r: &String)
        ensures
            r@ == self@.name(),
    {
        match self {
            Declaration::Datasource(b) => &b.name,
            Declaration::Generator(b) => &b.name,
            Declaration::Enum(e) => &e.name,
            Declaration::CompositeType(b) => &b.name,
            Declaration::Model(b) => &b.name,
            Declaration::TypeAlias(b) => &b.name,
        }
    }
}

/// Structural equality of two blocks: same name and the same properties in the same order.
pub fn blocks_equal(a: &Block, b: &Block) -> (r: bool)
    ensures
        r == (a@ == b@),
{
    if a.name != b.name {
        return false;
    }
    if a.properties.len() != b.properties.len() {
        assert(a@.properties.len() != b@.properties.len());
        return false;
    }
    let n = a.properties.len();
    let mut i: usize = 0;
    while i < n
        invariant
            n == a.properties.len(),
            n == b.properties.len(),
            0 <= i <= n,
            forall|j: int| 0 <= j < i ==> a.properties@[j]@ == b.properties@[j]@,
        decreases n - i,
    {
        let pa = &a.properties[i];
        let pb = &b.properties[i];
        if pa.key != pb.key || pa.value != pb.value {
            assert(a@.properties[i as int] != b@.properties[i as int]);
            return false;
        }
        i = i + 1;
    }
    assert(a@.properties =~= b@.properties);
    true
}

/// Whether `v` holds a value of the same name as `name`.
pub fn contains_name(v: &Vec<String>, name: &String) -> (r: bool)
    ensures
        r == strings_view(v@).contains(name@),
{
    let mut i: usize = 0;
    while i < v.len()
        invariant
            0 <= i <= v.len(),
            forall|j: int| 0 <= j < i ==> v@[j]@ != name@,
        decreases v.len() - i,
    {
        if v[i] == *name {
            assert(strings_view(v@)[i as int] == name@);
            return true;
        }
        i = i + 1;
    }
    assert(!strings_view(v@).contains(name@)) by {
        if strings_view(v@).contains(name@) {
            let k = choose|k: int| 0 <= k < strings_view(v@).len() && strings_view(v@)[k] == name@;
            assert(v@[k]@ == name@);
        }
    }
    false
}

} // verus!
