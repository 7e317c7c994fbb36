//! The raw surface syntax of theories: theory declarations and top-level
//! definitions recognised in parsed h-expressions, kept sorted by name so
//! that raw theory sets from several files can be merged.
use vstd::prelude::*;
use crate::expr::{Expr, ExprV, expr_view, exprs_view, lemma_exprs_view, clone_expr, parse_hexprs, parsed_hexprs};
use crate::order::{seq_lt, str_lt, lemma_lt_irreflexive, lemma_lt_total, lemma_lt_transitive, lemma_lt_asymmetric};
use crate::text::text_eq;

verus! {

/// An item that is found by its name.
pub trait Keyed {
    /// The item's name.
    spec fn key_of(&self) -> Seq<char>;

    /// The item's name.
    fn key(&self) -> (r: &str)
        ensures
            r@ == self.key_of(),
    ;
}


/// An arrow of a raw theory: its name, its source and target type maps, and
/// its definition when it is a derived arrow.
#[derive(Debug)]
pub struct RawTheoryArrow {
    pub name: String,
    pub type_maps: (Expr, Expr),
    pub definition: Option<Expr>,
}

/// A raw theory: its name, the theory of its syntax, and its arrows, sorted
/// by name.
#[derive(Debug)]
pub struct RawTheory {
    pub name: String,
    pub syntax_category: String,
    pub arrows: Vec<RawTheoryArrow>,
}

/// A conservative extension of an existing theory by fresh definitions,
/// sorted by name.
#[derive(Debug)]
pub struct Extension {
    pub theory: String,
    pub arrows: Vec<RawTheoryArrow>,
}

/// The theories read from one or more inputs, sorted by name, and the
/// extensions in the order they were read.
#[derive(Debug)]
pub struct RawTheorySet {
    pub theories: Vec<RawTheory>,
    pub extensions: Vec<Extension>,
}

/// A top-level item of a theory file.
enum RawTopLevel {
    Theory(RawTheory),
    Extension(Extension),
}

/// Why a text is not a raw theory set.
#[derive(Debug)]
pub enum ParseRawError {
    /// A top-level item that is neither a theory nor a definition.
    InvalidTheoryDeclaration(Expr),
    /// A theory body item that is not an arrow declaration.
    InvalidArrowDeclaration { theory: String, declaration: Expr },
    /// A second theory of the same name.
    DuplicateTheory(String),
    /// A second arrow of the same name in one theory.
    DuplicateArrow { theory: String, arrow: String },
    /// A top-level `def` that does not have the shape of a definition.
    InvalidTopLevelDefinition(Expr),
    /// The text is not a sequence of h-expressions; the parser's message.
    Parse(String),
    /// The file could not be read; the reason.
    Io(String),
}

/// Why two raw theory sets cannot be merged.
#[derive(Debug)]
pub enum MergeRawError {
    /// A theory declared in several inputs.
    DuplicateTheory(String),
    /// One theory name with two different syntax theories.
    SyntaxMismatch { theory: String, left: String, right: String },
    /// One arrow name declared twice in a theory.
    DuplicateArrow { theory: String, arrow: String },
}

/// An arrow as a plain value.
pub struct ArrowV {
    pub name: Seq<char>,
    pub source: ExprV,
    pub target: ExprV,
    pub definition: Option<ExprV>,
}

/// A raw theory as a plain value: its arrows by name.
pub struct RawTheoryV {
    pub name: Seq<char>,
    pub syntax_category: Seq<char>,
    pub arrows: Map<Seq<char>, ArrowV>,
}

/// An extension as a plain value.
pub struct ExtensionV {
    pub theory: Seq<char>,
    pub arrows: Map<Seq<char>, ArrowV>,
}

/// A raw theory set as a plain value: its theories by name.
pub struct RawTheorySetV {
    pub theories: Map<Seq<char>, RawTheoryV>,
    pub extensions: Seq<ExtensionV>,
}

/// A parse error as a plain value.
pub enum ParseErrV {
    InvalidTheoryDeclaration(ExprV),
    InvalidArrowDeclaration(Seq<char>, ExprV),
    DuplicateTheory(Seq<char>),
    DuplicateArrow(Seq<char>, Seq<char>),
    InvalidTopLevelDefinition(ExprV),
    Parse(Seq<char>),
    Io(Seq<char>),
}

/// A merge error as a plain value.
pub enum MergeErrV {
    DuplicateTheory(Seq<char>),
    SyntaxMismatch(Seq<char>, Seq<char>, Seq<char>),
    DuplicateArrow(Seq<char>, Seq<char>),
}

impl Keyed for RawTheoryArrow {
    open spec fn key_of(&self) -> Seq<char> {
        self.name@
    }

    fn key(&self) -> (r: &str) {
        self.name.as_str()
    }
}

impl Keyed for RawTheory {
    open spec fn key_of(&self) -> Seq<char> {
        self.name@
    }

    fn key(&self) -> (r: &str) {
        self.name.as_str()
    }
}

impl View for RawTheoryArrow {
    type V = ArrowV;

    open spec fn view(&self) -> ArrowV {
        ArrowV {
            name: self.name@,
            source: expr_view(self.type_maps.0),
            target: expr_view(self.type_maps.1),
            definition: match self.definition {
                None => None,
                Some(d) => Some(expr_view(d)),
            },
        }
    }
}

/// The arrows of a sorted list, by name.
pub open spec fn arrow_map(s: Seq<RawTheoryArrow>) -> Map<Seq<char>, ArrowV> {
    keyed_map(s).map_values(|a: RawTheoryArrow| a@)
}

impl View for RawTheory {
    type V = RawTheoryV;

    open spec fn view(&self) -> RawTheoryV {
        RawTheoryV { name: self.name@, syntax_category: self.syntax_category@, arrows: arrow_map(self.arrows@) }
    }
}

impl RawTheory {
    /// The arrows are sorted by name.
    pub open spec fn wf(&self) -> bool {
        sorted_keys(self.arrows@)
    }
}

impl View for Extension {
    type V = ExtensionV;

    open spec fn view(&self) -> ExtensionV {
        ExtensionV { theory: self.theory@, arrows: arrow_map(self.arrows@) }
    }
}

impl Extension {
    /// The arrows are sorted by name.
    pub open spec fn wf(&self) -> bool {
        sorted_keys(self.arrows@)
    }
}

/// The theories of a sorted list, by name.
pub open spec fn theory_map(s: Seq<RawTheory>) -> Map<Seq<char>, RawTheoryV> {
    keyed_map(s).map_values(|t: RawTheory| t@)
}

/// The plain values of a list of extensions.
pub open spec fn extensions_view(s: Seq<Extension>) -> Seq<ExtensionV> {
    s.map_values(|x: Extension| x@)
}

impl View for RawTheorySet {
    type V = RawTheorySetV;

    open spec fn view(&self) -> RawTheorySetV {
        RawTheorySetV { theories: theory_map(self.theories@), extensions: extensions_view(self.extensions@) }
    }
}

impl RawTheorySet {
    /// The theories are sorted by name, and every theory and extension has
    /// its arrows sorted by name.
    pub open spec fn wf(&self) -> bool {
        &&& sorted_keys(self.theories@)
        &&& forall|i: int| 0 <= i < self.theories.len() ==> (#[trigger] self.theories@[i]).wf()
        &&& forall|i: int| 0 <= i < self.extensions.len() ==> (#[trigger] self.extensions@[i]).wf()
    }
}

impl View for ParseRawError {
    type V = ParseErrV;

    open spec fn view(&self) -> ParseErrV {
        match self {
            ParseRawError::InvalidTheoryDeclaration(h) => ParseErrV::InvalidTheoryDeclaration(expr_view(*h)),
            ParseRawError::InvalidArrowDeclaration { theory, declaration } => ParseErrV::InvalidArrowDeclaration(theory@, expr_view(*declaration)),
            ParseRawError::DuplicateTheory(n) => ParseErrV::DuplicateTheory(n@),
            ParseRawError::DuplicateArrow { theory, arrow } => ParseErrV::DuplicateArrow(theory@, arrow@),
            ParseRawError::InvalidTopLevelDefinition(h) => ParseErrV::InvalidTopLevelDefinition(expr_view(*h)),
            ParseRawError::Parse(m) => ParseErrV::Parse(m@),
            ParseRawError::Io(m) => ParseErrV::Io(m@),
        }
    }
}

impl View for MergeRawError {
    type V = MergeErrV;

    open spec fn view(&self) -> MergeErrV {
        match self {
            MergeRawError::DuplicateTheory(n) => MergeErrV::DuplicateTheory(n@),
            MergeRawError::SyntaxMismatch { theory, left, right } => MergeErrV::SyntaxMismatch(theory@, left@, right@),
            MergeRawError::DuplicateArrow { theory, arrow } => MergeErrV::DuplicateArrow(theory@, arrow@),
        }
    }
}

/// The names of a list of items.
pub open spec fn keys<T: Keyed>(s: Seq<T>) -> Seq<Seq<char>> {
    s.map_values(|x: T| x.key_of())
}

/// Every name comes before the next: the names are sorted and distinct.
pub open spec fn sorted_keys<T: Keyed>(s: Seq<T>) -> bool {
    forall|i: int, j: int| 0 <= i < j < s.len() ==> seq_lt(#[trigger] s[i].key_of(), #[trigger] s[j].key_of())
}

/// A list of items as a map from their names; a later item wins.
pub open spec fn keyed_map<T: Keyed>(s: Seq<T>) -> Map<Seq<char>, T>
    decreases s.len(),
{
    if s.len() == 0 {
        Map::empty()
    } else {
        keyed_map(s.drop_last()).insert(s.last().key_of(), s.last())
    }
}

/// Some item of the list has the name `k`.
pub open spec fn has_key<T: Keyed>(s: Seq<T>, k: Seq<char>) -> bool {
    exists|i: int| 0 <= i < s.len() && #[trigger] s[i].key_of() == k
}

/// The map of a sorted list: its names, each with its item.
pub proof fn lemma_keyed_map<T: Keyed>(s: Seq<T>)
    requires
        sorted_keys(s),
    ensures
        forall|k: Seq<char>| #[trigger] keyed_map(s).dom().contains(k) <==> has_key(s, k),
        forall|i: int| 0 <= i < s.len() ==> #[trigger] keyed_map(s)[s[i].key_of()] == s[i],
        keyed_map(s).dom().finite(),
        keyed_map(s).dom().len() == s.len(),
    decreases s.len(),
{
    if s.len() > 0 {
        let t = s.drop_last();
        assert(sorted_keys(t)) by {
            assert forall|i: int, j: int| 0 <= i < j < t.len() implies seq_lt(#[trigger] t[i].key_of(), #[trigger] t[j].key_of()) by {
                assert(t[i] == s[i] && t[j] == s[j]);
            }
        }
        lemma_keyed_map(t);
        let last = s.last();
        assert(!keyed_map(t).dom().contains(last.key_of())) by {
            if keyed_map(t).dom().contains(last.key_of()) {
                let i = choose|i: int| 0 <= i < t.len() && #[trigger] t[i].key_of() == last.key_of();
                assert(s[i] == t[i]);
                assert(seq_lt(s[i].key_of(), s[s.len() - 1].key_of()));
                lemma_lt_irreflexive(last.key_of());
            }
        }
        assert forall|k: Seq<char>| #[trigger] keyed_map(s).dom().contains(k) <==> has_key(s, k) by {
            if has_key(s, k) {
                let i = choose|i: int| 0 <= i < s.len() && #[trigger] s[i].key_of() == k;
                if i < s.len() - 1 {
                    assert(t[i] == s[i]);
                    assert(has_key(t, k));
                }
            }
            if keyed_map(t).dom().contains(k) {
                let i = choose|i: int| 0 <= i < t.len() && #[trigger] t[i].key_of() == k;
                assert(s[i] == t[i]);
            }
            if k == last.key_of() {
                assert(s[s.len() - 1].key_of() == k);
            }
        }
        assert forall|i: int| 0 <= i < s.len() implies #[trigger] keyed_map(s)[s[i].key_of()] == s[i] by {
            if i < s.len() - 1 {
                assert(t[i] == s[i]);
                assert(seq_lt(s[i].key_of(), s[s.len() - 1].key_of()));
                if s[i].key_of() == last.key_of() {
                    lemma_lt_irreflexive(last.key_of());
                }
            }
        }
    }
}

/// Where an item named `k` goes in a sorted list: after every name that
/// comes before `k`.
pub open spec fn is_position<T: Keyed>(s: Seq<T>, k: Seq<char>, p: int) -> bool {
    &&& 0 <= p <= s.len()
    &&& forall|i: int| 0 <= i < p ==> seq_lt(#[trigger] s[i].key_of(), k)
    &&& forall|i: int| p <= i < s.len() ==> !seq_lt(#[trigger] s[i].key_of(), k)
}

/// In a sorted list, the name `k` is there exactly when it stands at its
/// position.
pub proof fn lemma_position_has_key<T: Keyed>(s: Seq<T>, k: Seq<char>, p: int)
    requires
        sorted_keys(s),
        is_position(s, k, p),
    ensures
        has_key(s, k) <==> (p < s.len() && s[p].key_of() == k),
{
    if has_key(s, k) {
        let i = choose|i: int| 0 <= i < s.len() && #[trigger] s[i].key_of() == k;
        lemma_lt_irreflexive(k);
        if i > p {
            assert(seq_lt(s[p].key_of(), s[i].key_of()));
            lemma_lt_total(s[p].key_of(), k);
        }
    }
    if p < s.len() && s[p].key_of() == k {
        assert(s[p].key_of() == k);
    }
}

/// Inserting an item with a new name at its position keeps the list sorted
/// and adds the item to the map.
pub proof fn lemma_insert_at_position<T: Keyed>(s: Seq<T>, a: T, p: int)
    requires
        sorted_keys(s),
        is_position(s, a.key_of(), p),
        !has_key(s, a.key_of()),
    ensures
        sorted_keys(s.insert(p, a)),
        keyed_map(s.insert(p, a)) == keyed_map(s).insert(a.key_of(), a),
{
    let r = s.insert(p, a);
    let k = a.key_of();
    assert forall|i: int, j: int| 0 <= i < j < r.len() implies seq_lt(#[trigger] r[i].key_of(), #[trigger] r[j].key_of()) by {
        if j < p {
            assert(r[i] == s[i] && r[j] == s[j]);
        } else if i < p && j == p {
            assert(r[i] == s[i]);
        } else if i < p && j > p {
            assert(r[i] == s[i]);
            assert(r[j] == s[j - 1]);
            assert(!seq_lt(s[j - 1].key_of(), k));
            lemma_lt_total(s[j - 1].key_of(), k);
            if s[j - 1].key_of() != k {
                lemma_lt_transitive(r[i].key_of(), k, s[j - 1].key_of());
            }
        } else if i == p {
            assert(r[j] == s[j - 1]);
            lemma_lt_total(s[j - 1].key_of(), k);
            assert(s[j - 1].key_of() != k);
        } else {
            assert(r[i] == s[i - 1] && r[j] == s[j - 1]);
        }
    }
    lemma_keyed_map(s);
    lemma_keyed_map(r);
    assert forall|x: Seq<char>| #[trigger] keyed_map(r).dom().contains(x) <==> keyed_map(s).insert(k, a).dom().contains(x) by {
        if has_key(r, x) {
            let i = choose|i: int| 0 <= i < r.len() && #[trigger] r[i].key_of() == x;
            if i < p {
                assert(r[i] == s[i]);
            } else if i > p {
                assert(r[i] == s[i - 1]);
            }
        }
        if has_key(s, x) {
            let i = choose|i: int| 0 <= i < s.len() && #[trigger] s[i].key_of() == x;
            if i < p {
                assert(r[i] == s[i]);
            } else {
                assert(r[i + 1] == s[i]);
            }
        }
        if x == k {
            assert(r[p] == a);
        }
    }
    assert forall|x: Seq<char>| #[trigger] keyed_map(r).dom().contains(x) implies keyed_map(r)[x] == keyed_map(s).insert(k, a)[x] by {
        let i = choose|i: int| 0 <= i < r.len() && #[trigger] r[i].key_of() == x;
        if i < p {
            assert(r[i] == s[i]);
        } else if i > p {
            assert(r[i] == s[i - 1]);
        }
    }
    assert(keyed_map(r) =~= keyed_map(s).insert(k, a));
}

/// Replacing the item at an index by one of the same name keeps the list
/// sorted and replaces the item in the map.
pub proof fn lemma_update_same_key<T: Keyed>(s: Seq<T>, p: int, b: T)
    requires
        sorted_keys(s),
        0 <= p < s.len(),
        b.key_of() == s[p].key_of(),
    ensures
        sorted_keys(s.update(p, b)),
        keyed_map(s.update(p, b)) == keyed_map(s).insert(b.key_of(), b),
{
    let r = s.update(p, b);
    assert forall|i: int, j: int| 0 <= i < j < r.len() implies seq_lt(#[trigger] r[i].key_of(), #[trigger] r[j].key_of()) by {
        assert(r[i].key_of() == s[i].key_of());
        assert(r[j].key_of() == s[j].key_of());
    }
    lemma_keyed_map(s);
    lemma_keyed_map(r);
    assert forall|x: Seq<char>| #[trigger] keyed_map(r).dom().contains(x) <==> keyed_map(s).insert(b.key_of(), b).dom().contains(x) by {
        if has_key(r, x) {
            let i = choose|i: int| 0 <= i < r.len() && #[trigger] r[i].key_of() == x;
            assert(s[i].key_of() == x);
        }
        if has_key(s, x) {
            let i = choose|i: int| 0 <= i < s.len() && #[trigger] s[i].key_of() == x;
            assert(r[i].key_of() == x);
        }
        if x == b.key_of() {
            assert(r[p] == b);
        }
    }
    assert forall|x: Seq<char>| #[trigger] keyed_map(r).dom().contains(x) implies keyed_map(r)[x] == keyed_map(s).insert(b.key_of(), b)[x] by {
        let i = choose|i: int| 0 <= i < r.len() && #[trigger] r[i].key_of() == x;
        if i != p {
            assert(r[i] == s[i]);
            if x == b.key_of() {
                assert(s[i].key_of() == s[p].key_of());
                if i < p {
                    assert(seq_lt(s[i].key_of(), s[p].key_of()));
                } else {
                    assert(seq_lt(s[p].key_of(), s[i].key_of()));
                }
                lemma_lt_irreflexive(x);
            }
        }
    }
    assert(keyed_map(r) =~= keyed_map(s).insert(b.key_of(), b));
}


/// `k` is a name of both sets, and no name of both comes before it.
pub open spec fn is_first_common(a: Set<Seq<char>>, b: Set<Seq<char>>, k: Seq<char>) -> bool {
    &&& a.contains(k)
    &&& b.contains(k)
    &&& forall|x: Seq<char>| a.contains(x) && b.contains(x) ==> !seq_lt(x, k)
}

/// The first name, in name order, of both sets.
pub open spec fn first_common(a: Set<Seq<char>>, b: Set<Seq<char>>) -> Seq<char> {
    choose|k: Seq<char>| is_first_common(a, b, k)
}

/// The two sets have a name in common.
pub open spec fn meet(a: Set<Seq<char>>, b: Set<Seq<char>>) -> bool {
    exists|k: Seq<char>| a.contains(k) && b.contains(k)
}

/// What merging two declarations of one theory gives: a mismatch of their
/// syntax theories, else the first arrow name they share, else the union of
/// their arrows.
pub open spec fn theory_merge(a: RawTheoryV, b: RawTheoryV) -> Result<RawTheoryV, MergeErrV> {
    if a.syntax_category != b.syntax_category {
        Err(MergeErrV::SyntaxMismatch(a.name, a.syntax_category, b.syntax_category))
    } else if meet(a.arrows.dom(), b.arrows.dom()) {
        Err(MergeErrV::DuplicateArrow(a.name, first_common(a.arrows.dom(), b.arrows.dom())))
    } else {
        Ok(RawTheoryV { name: a.name, syntax_category: a.syntax_category, arrows: a.arrows.union_prefer_right(b.arrows) })
    }
}

/// In a sorted list, the first item whose name is in `a` has the first name
/// of both.
pub proof fn lemma_first_common<T: Keyed>(a: Set<Seq<char>>, s: Seq<T>, j: int)
    requires
        sorted_keys(s),
        0 <= j < s.len(),
        a.contains(s[j].key_of()),
        forall|i: int| 0 <= i < j ==> !a.contains(#[trigger] s[i].key_of()),
    ensures
        meet(a, keyed_map(s).dom()),
        first_common(a, keyed_map(s).dom()) == s[j].key_of(),
{
    lemma_keyed_map(s);
    let b = keyed_map(s).dom();
    let k = s[j].key_of();
    assert(b.contains(k));
    assert forall|x: Seq<char>| a.contains(x) && b.contains(x) implies !seq_lt(x, k) by {
        let i = choose|i: int| 0 <= i < s.len() && #[trigger] s[i].key_of() == x;
        if i > j {
            lemma_lt_asymmetric(k, x);
        } else if i == j {
            lemma_lt_irreflexive(k);
        }
    }
    assert(is_first_common(a, b, k));
    let c = first_common(a, b);
    assert(is_first_common(a, b, c));
    lemma_lt_total(c, k);
}

/// The map of a prefix one longer: one more item.
pub proof fn lemma_keyed_map_take<T: Keyed>(s: Seq<T>, j: int)
    requires
        0 <= j < s.len(),
    ensures
        keyed_map(s.take(j + 1)) == keyed_map(s.take(j)).insert(s[j].key_of(), s[j]),
{
    assert(s.take(j + 1).drop_last() =~= s.take(j));
}

/// A prefix of a sorted list is sorted.
pub proof fn lemma_sorted_take<T: Keyed>(s: Seq<T>, j: int)
    requires
        sorted_keys(s),
        0 <= j <= s.len(),
    ensures
        sorted_keys(s.take(j)),
{
    let t = s.take(j);
    assert forall|i: int, k: int| 0 <= i < k < t.len() implies seq_lt(#[trigger] t[i].key_of(), #[trigger] t[k].key_of()) by {
        assert(t[i] == s[i] && t[k] == s[k]);
    }
}

/// The arrows of two maps of items, by plain value, joined.
pub proof fn lemma_arrow_union(m1: Map<Seq<char>, RawTheoryArrow>, m2: Map<Seq<char>, RawTheoryArrow>)
    ensures
        m1.union_prefer_right(m2).map_values(|a: RawTheoryArrow| a@) == m1.map_values(|a: RawTheoryArrow| a@).union_prefer_right(
            m2.map_values(|a: RawTheoryArrow| a@),
        ),
{
    assert(m1.union_prefer_right(m2).map_values(|a: RawTheoryArrow| a@) =~= m1.map_values(|a: RawTheoryArrow| a@).union_prefer_right(
        m2.map_values(|a: RawTheoryArrow| a@),
    ));
}

impl RawTheory {
    /// Merges a second declaration of this theory into it: the syntax
    /// theories must agree and no arrow may be declared by both.
    pub fn merge(self, other: Self) -> (r: Result<Self, MergeRawError>)
        requires
            self.wf(),
            other.wf(),
            self.name@ == other.name@,
        ensures
            match r {
                Ok(t) => t.wf() && theory_merge(self@, other@) == Ok::<RawTheoryV, MergeErrV>(t@),
                Err(e) => theory_merge(self@, other@) == Err::<RawTheoryV, MergeErrV>(e@),
            },
    {
        let RawTheory { name, syntax_category, mut arrows } = self;
        let RawTheory { name: _, syntax_category: other_category, arrows: mut rest } = other;
        if !text_eq(syntax_category.as_str(), other_category.as_str()) {
            return Err(MergeRawError::SyntaxMismatch { theory: name, left: syntax_category, right: other_category });
        }
        let ghost mine = arrows@;
        let ghost theirs = rest@;
        let ghost mut j: int = 0;
        proof {
            lemma_keyed_map(mine);
            lemma_keyed_map(theirs);
            assert(theirs.skip(0) =~= theirs);
            assert(keyed_map(theirs.take(0)) =~= Map::<Seq<char>, RawTheoryArrow>::empty());
            assert(keyed_map(mine).union_prefer_right(keyed_map(theirs.take(0))) =~= keyed_map(mine));
        }
        while rest.len() > 0
            invariant
                0 <= j <= theirs.len(),
                rest@ == theirs.skip(j),
                sorted_keys(mine),
                sorted_keys(theirs),
                sorted_keys(arrows@),
                keyed_map(arrows@) == keyed_map(mine).union_prefer_right(keyed_map(theirs.take(j))),
                mine == self.arrows@,
                theirs == other.arrows@,
                name@ == self.name@,
                syntax_category@ == self.syntax_category@,
                self.syntax_category@ == other.syntax_category@,
                forall|i: int| 0 <= i < j ==> !keyed_map(mine).dom().contains(#[trigger] theirs[i].key_of()),
            decreases rest.len(),
        {
            let a = rest.remove(0);
            assert(a == theirs[j]);
            let p = position(&arrows, a.key());
            proof {
                lemma_position_has_key(arrows@, a.key_of(), p as int);
                lemma_keyed_map(arrows@);
                lemma_sorted_take(theirs, j);
                lemma_keyed_map(theirs.take(j));
                if has_key(theirs.take(j), a.key_of()) {
                    let i = choose|i: int| 0 <= i < theirs.take(j).len() && #[trigger] theirs.take(j)[i].key_of() == a.key_of();
                    assert(theirs.take(j)[i] == theirs[i]);
                    assert(seq_lt(theirs[i].key_of(), theirs[j].key_of()));
                    lemma_lt_irreflexive(a.key_of());
                }
                assert(!keyed_map(theirs.take(j)).dom().contains(a.key_of()));
                assert(keyed_map(arrows@).dom().contains(a.key_of()) <==> keyed_map(mine).dom().contains(a.key_of()));
            }
            if p < arrows.len() && text_eq(arrows[p].key(), a.key()) {
                proof {
                    assert(has_key(arrows@, a.key_of()));
                    assert(keyed_map(mine).dom().contains(a.key_of()));
                    lemma_first_common(keyed_map(mine).dom(), theirs, j);
                    assert(arrow_map(mine).dom() =~= keyed_map(mine).dom());
                    assert(arrow_map(theirs).dom() =~= keyed_map(theirs).dom());
                    assert(self@.arrows == arrow_map(mine));
                    assert(other@.arrows == arrow_map(theirs));
                    assert(meet(self@.arrows.dom(), other@.arrows.dom()));
                }
                return Err(MergeRawError::DuplicateArrow { theory: name, arrow: a.name });
            }
            proof {
                assert(!has_key(arrows@, a.key_of())) by {
                    if has_key(arrows@, a.key_of()) {
                        let i = choose|i: int| 0 <= i < arrows@.len() && #[trigger] arrows@[i].key_of() == a.key_of();
                    }
                }
                lemma_insert_at_position(arrows@, a, p as int);
                lemma_keyed_map_take(theirs, j);
                assert(!keyed_map(mine).dom().contains(a.key_of()));
                assert(theirs.skip(j).remove(0) =~= theirs.skip(j + 1));
                assert(keyed_map(arrows@.insert(p as int, a)) =~= keyed_map(mine).union_prefer_right(keyed_map(theirs.take(j + 1))));
            }
            arrows.insert(p, a);
            proof {
                j = j + 1;
            }
        }
        proof {
            assert(j == theirs.len());
            assert(theirs.take(j) =~= theirs);
            assert(!meet(keyed_map(mine).dom(), keyed_map(theirs).dom())) by {
                if meet(keyed_map(mine).dom(), keyed_map(theirs).dom()) {
                    let k = choose|k: Seq<char>| keyed_map(mine).dom().contains(k) && keyed_map(theirs).dom().contains(k);
                    let i = choose|i: int| 0 <= i < theirs.len() && #[trigger] theirs[i].key_of() == k;
                }
            }
            assert(arrow_map(mine).dom() == keyed_map(mine).dom());
            assert(arrow_map(theirs).dom() == keyed_map(theirs).dom());
            lemma_arrow_union(keyed_map(mine), keyed_map(theirs));
        }
        Ok(RawTheory { name, syntax_category, arrows })
    }
}

/// The theory named `k` is in both maps and its two declarations do not
/// merge.
pub open spec fn merge_fails(a: Map<Seq<char>, RawTheoryV>, b: Map<Seq<char>, RawTheoryV>, k: Seq<char>) -> bool {
    &&& a.dom().contains(k)
    &&& b.dom().contains(k)
    &&& theory_merge(a[k], b[k]) is Err
}

/// `k` is the first name, in name order, whose declarations do not merge.
pub open spec fn is_first_failure(a: Map<Seq<char>, RawTheoryV>, b: Map<Seq<char>, RawTheoryV>, k: Seq<char>) -> bool {
    &&& merge_fails(a, b, k)
    &&& forall|x: Seq<char>| merge_fails(a, b, x) ==> !seq_lt(x, k)
}

/// The theory named `k` after merging: the merge of both declarations when
/// both maps have one, else the one declaration.
pub open spec fn merged_theory(a: Map<Seq<char>, RawTheoryV>, b: Map<Seq<char>, RawTheoryV>, k: Seq<char>) -> RawTheoryV {
    if a.dom().contains(k) && b.dom().contains(k) {
        match theory_merge(a[k], b[k]) {
            Ok(t) => t,
            Err(_) => a[k],
        }
    } else if b.dom().contains(k) {
        b[k]
    } else {
        a[k]
    }
}

/// The theories of two sets merged name by name.
pub open spec fn merged_theories(a: Map<Seq<char>, RawTheoryV>, b: Map<Seq<char>, RawTheoryV>) -> Map<Seq<char>, RawTheoryV> {
    Map::new(|k: Seq<char>| a.dom().contains(k) || b.dom().contains(k), |k: Seq<char>| merged_theory(a, b, k))
}

/// Merging with one more theory of a new name adds that theory, merged.
pub proof fn lemma_merged_insert(a: Map<Seq<char>, RawTheoryV>, b: Map<Seq<char>, RawTheoryV>, k: Seq<char>, v: RawTheoryV)
    requires
        !b.dom().contains(k),
    ensures
        merged_theories(a, b.insert(k, v)) == merged_theories(a, b).insert(k, merged_theory(a, b.insert(k, v), k)),
{
    assert(merged_theories(a, b.insert(k, v)) =~= merged_theories(a, b).insert(k, merged_theory(a, b.insert(k, v), k)));
}

impl RawTheorySet {
    /// Merges the theories of `other` into these, name by name, and appends
    /// its extensions. Fails with the first theory, in name order, whose two
    /// declarations do not merge.
    pub fn merge(self, other: Self) -> (r: Result<Self, MergeRawError>)
        requires
            self.wf(),
            other.wf(),
        ensures
            match r {
                Ok(s) => {
                    &&& s.wf()
                    &&& forall|k: Seq<char>| !merge_fails(self@.theories, other@.theories, k)
                    &&& s@.theories == merged_theories(self@.theories, other@.theories)
                    &&& s@.extensions == self@.extensions + other@.extensions
                },
                Err(e) => exists|k: Seq<char>|
                    is_first_failure(self@.theories, other@.theories, k)
                        && #[trigger] theory_merge(self@.theories[k], other@.theories[k]) == Err::<RawTheoryV, MergeErrV>(e@),
            },
    {
        let RawTheorySet { mut theories, mut extensions } = self;
        let RawTheorySet { theories: mut rest, extensions: mut more } = other;
        let ghost mine = theories@;
        let ghost theirs = rest@;
        let ghost a = theory_map(mine);
        let ghost b = theory_map(theirs);
        let ghost mut j: int = 0;
        proof {
            lemma_keyed_map(mine);
            lemma_keyed_map(theirs);
            assert(theirs.skip(0) =~= theirs);
            assert(theory_map(theirs.take(0)) =~= Map::<Seq<char>, RawTheoryV>::empty());
            assert(merged_theories(a, Map::<Seq<char>, RawTheoryV>::empty()) =~= a);
        }
        while rest.len() > 0
            invariant
                0 <= j <= theirs.len(),
                rest@ == theirs.skip(j),
                sorted_keys(mine),
                sorted_keys(theirs),
                sorted_keys(theories@),
                forall|i: int| 0 <= i < theirs.len() ==> (#[trigger] theirs[i]).wf(),
                forall|i: int| 0 <= i < theories@.len() ==> (#[trigger] theories@[i]).wf(),
                a == theory_map(mine),
                b == theory_map(theirs),
                a == self@.theories,
                b == other@.theories,
                theory_map(theories@) == merged_theories(a, theory_map(theirs.take(j))),
                forall|i: int| 0 <= i < j ==> !merge_fails(a, b, #[trigger] theirs[i].key_of()),
            decreases rest.len(),
        {
            let t = rest.remove(0);
            assert(t == theirs[j]);
            let p = position(&theories, t.key());
            let ghost pre = theory_map(theirs.take(j));
            proof {
                lemma_position_has_key(theories@, t.key_of(), p as int);
                lemma_keyed_map(theories@);
                lemma_keyed_map(theirs);
                lemma_sorted_take(theirs, j);
                lemma_keyed_map(theirs.take(j));
                lemma_keyed_map(mine);
                if has_key(theirs.take(j), t.key_of()) {
                    let i = choose|i: int| 0 <= i < theirs.take(j).len() && #[trigger] theirs.take(j)[i].key_of() == t.key_of();
                    assert(theirs.take(j)[i] == theirs[i]);
                    assert(seq_lt(theirs[i].key_of(), theirs[j].key_of()));
                    lemma_lt_irreflexive(t.key_of());
                }
                assert(!pre.dom().contains(t.key_of()));
                assert(theory_map(theories@).dom().contains(t.key_of()) <==> a.dom().contains(t.key_of()));
                assert(b.dom().contains(t.key_of()));
                assert(b[t.key_of()] == t@);
                lemma_keyed_map_take(theirs, j);
                assert(theory_map(theirs.take(j + 1)) =~= pre.insert(t.key_of(), t@));
                lemma_merged_insert(a, pre, t.key_of(), t@);
                assert(theirs.skip(j).remove(0) =~= theirs.skip(j + 1));
            }
            let ghost before = theories@;
            if p < theories.len() && text_eq(theories[p].key(), t.key()) {
                let existing = theories.remove(p);
                proof {
                    let k = t.key_of();
                    assert(before[p as int] == existing);
                    assert(keyed_map(before)[k] == existing);
                    assert(theory_map(before)[k] == existing@);
                    assert(merged_theories(a, pre)[k] == merged_theory(a, pre, k));
                    assert(a.dom().contains(k));
                    assert(existing@ == a[k]);
                    assert(before =~= theories@.insert(p as int, existing));
                }
                match existing.merge(t) {
                    Ok(m) => {
                        proof {
                            let k = t.key_of();
                            let old_theories = before;
                            lemma_update_same_key(old_theories, p as int, m);
                            assert(old_theories.update(p as int, m) =~= theories@.insert(p as int, m));
                            assert(!merge_fails(a, b, k));
                            assert(keyed_map(old_theories).insert(k, m).map_values(|x: RawTheory| x@) =~= theory_map(old_theories).insert(k, m@));
                            assert(merged_theory(a, pre.insert(k, t@), k) == m@);
                            assert forall|i: int| 0 <= i < theories@.insert(p as int, m).len() implies (#[trigger] theories@.insert(p as int, m)[i]).wf() by {
                                if i != p {
                                    assert(theories@.insert(p as int, m)[i] == old_theories[i]);
                                }
                            }
                            assert(theory_map(theories@.insert(p as int, m)) =~= merged_theories(a, theory_map(theirs.take(j + 1))));
                        }
                        theories.insert(p, m);
                    },
                    Err(e) => {
                        proof {
                            assert(merge_fails(a, b, t.key_of()));
                            assert forall|x: Seq<char>| merge_fails(a, b, x) implies !seq_lt(x, t.key_of()) by {
                                let i = choose|i: int| 0 <= i < theirs.len() && #[trigger] theirs[i].key_of() == x;
                                if i > j {
                                    lemma_lt_asymmetric(t.key_of(), x);
                                } else if i == j {
                                    lemma_lt_irreflexive(x);
                                }
                            }
                            assert(is_first_failure(a, b, t.key_of()));
                            assert(theory_merge(self@.theories[t.key_of()], other@.theories[t.key_of()]) == Err::<RawTheoryV, MergeErrV>(e@));
                        }
                        return Err(e);
                    },
                }
            } else {
                proof {
                    assert(!has_key(theories@, t.key_of())) by {
                        if has_key(theories@, t.key_of()) {
                            let i = choose|i: int| 0 <= i < theories@.len() && #[trigger] theories@[i].key_of() == t.key_of();
                        }
                    }
                    lemma_insert_at_position(theories@, t, p as int);
                    assert(!a.dom().contains(t.key_of()));
                    assert forall|i: int| 0 <= i < theories@.insert(p as int, t).len() implies (#[trigger] theories@.insert(p as int, t)[i]).wf() by {
                        if i < p {
                            assert(theories@.insert(p as int, t)[i] == theories@[i]);
                        } else if i > p {
                            assert(theories@.insert(p as int, t)[i] == theories@[i - 1]);
                        }
                    }
                    assert(theory_map(theories@.insert(p as int, t)) =~= merged_theories(a, theory_map(theirs.take(j + 1))));
                }
                theories.insert(p, t);
            }
            proof {
                j = j + 1;
            }
        }
        proof {
            assert(theirs.take(j) =~= theirs);
            assert forall|k: Seq<char>| !merge_fails(a, b, k) by {
                if merge_fails(a, b, k) {
                    let i = choose|i: int| 0 <= i < theirs.len() && #[trigger] theirs[i].key_of() == k;
                }
            }
        }
        let ghost ext_before = extensions@;
        let ghost ext_more = more@;
        extensions.append(&mut more);
        proof {
            assert(extensions_view(extensions@) =~= extensions_view(ext_before) + extensions_view(ext_more));
        }
        Ok(RawTheorySet { theories, extensions })
    }
}

/// `h` is the operation `lit`.
pub open spec fn is_op(h: ExprV, lit: Seq<char>) -> bool {
    h == ExprV::Operation(lit)
}

/// The arrow that a theory body item declares: `(arr f : s -> t)`, or the
/// derived arrow of `(def f : s -> t = d)`.
pub open spec fn arrow_of(h: ExprV) -> Option<ArrowV> {
    match h {
        ExprV::Composition(p) => {
            if p.len() == 6 && is_op(p[0], "arr"@) && is_op(p[2], ":"@) && is_op(p[4], "->"@) {
                match p[1] {
                    ExprV::Operation(name) => Some(ArrowV { name, source: p[3], target: p[5], definition: None }),
                    _ => None,
                }
            } else if p.len() == 8 && is_op(p[0], "def"@) && is_op(p[2], ":"@) && is_op(p[4], "->"@) && is_op(p[6], "="@) {
                match p[1] {
                    ExprV::Operation(name) => Some(ArrowV { name, source: p[3], target: p[5], definition: Some(p[7]) }),
                    _ => None,
                }
            } else {
                None
            }
        },
        _ => None,
    }
}

/// The arrows of a theory body, read in order: the first item that
/// declares no arrow, or the first arrow whose name was declared before, is
/// the error.
pub open spec fn body_arrows(theory: Seq<char>, body: Seq<ExprV>) -> Result<Map<Seq<char>, ArrowV>, ParseErrV>
    decreases body.len(),
{
    if body.len() == 0 {
        Ok(Map::empty())
    } else {
        match body_arrows(theory, body.drop_last()) {
            Err(e) => Err(e),
            Ok(m) => match arrow_of(body.last()) {
                None => Err(ParseErrV::InvalidArrowDeclaration(theory, body.last())),
                Some(a) => if m.dom().contains(a.name) {
                    Err(ParseErrV::DuplicateArrow(theory, a.name))
                } else {
                    Ok(m.insert(a.name, a))
                },
            },
        }
    }
}

/// The theory that `(theory name syntax { arrows })` declares, with the
/// error that `RawTheory::from_hexpr` reports.
pub open spec fn theory_from(h: ExprV) -> Result<RawTheoryV, ParseErrV> {
    match h {
        ExprV::Composition(p) => {
            if p.len() == 4 && is_op(p[0], "theory"@) && p[1] is Operation {
                match (p[1], p[2], p[3]) {
                    (ExprV::Operation(name), ExprV::Operation(cat), ExprV::Tensor(body)) => match body_arrows(name, body) {
                        Ok(m) => Ok(RawTheoryV { name, syntax_category: cat, arrows: m }),
                        Err(e) => Err(e),
                    },
                    _ => Err(ParseErrV::InvalidTheoryDeclaration(h)),
                }
            } else {
                Err(ParseErrV::InvalidTheoryDeclaration(h))
            }
        },
        _ => Err(ParseErrV::InvalidTheoryDeclaration(h)),
    }
}

/// The extension that a top-level `(def theory f : s -> t = d)` declares.
pub open spec fn extension_of(h: ExprV) -> Option<ExtensionV> {
    match h {
        ExprV::Composition(p) => {
            if p.len() == 9 && is_op(p[0], "def"@) && is_op(p[3], ":"@) && is_op(p[5], "->"@) && is_op(p[7], "="@) {
                match (p[1], p[2]) {
                    (ExprV::Operation(theory), ExprV::Operation(name)) => Some(
                        ExtensionV {
                            theory,
                            arrows: Map::empty().insert(name, ArrowV { name, source: p[4], target: p[6], definition: Some(p[8]) }),
                        },
                    ),
                    _ => None,
                }
            } else {
                None
            }
        },
        _ => None,
    }
}

/// A top-level item as a plain value.
pub enum TopLevelV {
    Theory(RawTheoryV),
    Extension(ExtensionV),
}

/// `h` is a composition that starts with the operation `def`.
pub open spec fn starts_with_def(h: ExprV) -> bool {
    match h {
        ExprV::Composition(p) => p.len() > 0 && is_op(p[0], "def"@),
        _ => false,
    }
}

/// What a top-level item is: a theory, else an extension, else an error
/// that says which of the two it was meant to be.
pub open spec fn top_level_of(h: ExprV) -> Result<TopLevelV, ParseErrV> {
    match theory_from(h) {
        Ok(t) => Ok(TopLevelV::Theory(t)),
        Err(_) => match extension_of(h) {
            Some(x) => Ok(TopLevelV::Extension(x)),
            None => if starts_with_def(h) {
                Err(ParseErrV::InvalidTopLevelDefinition(h))
            } else {
                Err(ParseErrV::InvalidTheoryDeclaration(h))
            },
        },
    }
}

/// The raw theory set of a sequence of top-level items, read in order: the
/// first item in error, or the first theory whose name was declared before,
/// is the error.
pub open spec fn raw_set_of(hs: Seq<ExprV>) -> Result<RawTheorySetV, ParseErrV>
    decreases hs.len(),
{
    if hs.len() == 0 {
        Ok(RawTheorySetV { theories: Map::empty(), extensions: Seq::empty() })
    } else {
        match raw_set_of(hs.drop_last()) {
            Err(e) => Err(e),
            Ok(s) => match top_level_of(hs.last()) {
                Err(e) => Err(e),
                Ok(TopLevelV::Theory(t)) => if s.theories.dom().contains(t.name) {
                    Err(ParseErrV::DuplicateTheory(t.name))
                } else {
                    Ok(RawTheorySetV { theories: s.theories.insert(t.name, t), extensions: s.extensions })
                },
                Ok(TopLevelV::Extension(x)) => Ok(RawTheorySetV { theories: s.theories, extensions: s.extensions.push(x) }),
            },
        }
    }
}

/// An error in a prefix of a theory body is the error of the whole body.
pub proof fn lemma_body_error_stays(theory: Seq<char>, s: Seq<ExprV>, k: int)
    requires
        0 <= k <= s.len(),
        body_arrows(theory, s.take(k)) is Err,
    ensures
        body_arrows(theory, s) == body_arrows(theory, s.take(k)),
    decreases s.len(),
{
    if k == s.len() {
        assert(s.take(k) =~= s);
    } else {
        assert(s.drop_last().take(k) =~= s.take(k));
        lemma_body_error_stays(theory, s.drop_last(), k);
    }
}

/// Whether `h` is the operation `literal`.
pub(crate) fn is_operation(h: &Expr, literal: &str) -> (r: bool)
    ensures
        r == is_op(expr_view(*h), literal@),
{
    match h {
        Expr::Operation(op) => text_eq(op.as_str(), literal),
        _ => false,
    }
}

/// The arrow that a theory body item declares.
fn arrow_from(h: &Expr) -> (r: Option<RawTheoryArrow>)
    ensures
        match r {
            Some(a) => arrow_of(expr_view(*h)) == Some(a@),
            None => arrow_of(expr_view(*h)) is None,
        },
{
    match h {
        Expr::Composition(parts) => {
            proof {
                lemma_exprs_view(parts@);
            }
            if parts.len() == 6 && is_operation(&parts[0], "arr") && is_operation(&parts[2], ":") && is_operation(&parts[4], "->") {
                match &parts[1] {
                    Expr::Operation(name) => {
                        return Some(
                            RawTheoryArrow {
                                name: name.clone(),
                                type_maps: (clone_expr(&parts[3]), clone_expr(&parts[5])),
                                definition: None,
                            },
                        );
                    },
                    _ => {
                        return None;
                    },
                }
            }
            if parts.len() == 8 && is_operation(&parts[0], "def") && is_operation(&parts[2], ":") && is_operation(&parts[4], "->")
                && is_operation(&parts[6], "=") {
                match &parts[1] {
                    Expr::Operation(name) => {
                        return Some(
                            RawTheoryArrow {
                                name: name.clone(),
                                type_maps: (clone_expr(&parts[3]), clone_expr(&parts[5])),
                                definition: Some(clone_expr(&parts[7])),
                            },
                        );
                    },
                    _ => {
                        return None;
                    },
                }
            }
            None
        },
        _ => None,
    }
}

/// The arrows of a theory body, sorted by name.
fn arrows_from_body(theory: &str, body: &Vec<Expr>) -> (r: Result<Vec<RawTheoryArrow>, ParseRawError>)
    ensures
        match r {
            Ok(v) => sorted_keys(v@) && body_arrows(theory@, exprs_view(body@)) == Ok::<Map<Seq<char>, ArrowV>, ParseErrV>(arrow_map(v@)),
            Err(e) => body_arrows(theory@, exprs_view(body@)) == Err::<Map<Seq<char>, ArrowV>, ParseErrV>(e@),
        },
{
    let mut arrows: Vec<RawTheoryArrow> = Vec::new();
    let mut i: usize = 0;
    proof {
        lemma_exprs_view(body@);
        assert(exprs_view(body@.take(0)) =~= Seq::<ExprV>::empty());
        assert(arrow_map(arrows@) =~= Map::<Seq<char>, ArrowV>::empty());
    }
    while i < body.len()
        invariant
            i <= body.len(),
            sorted_keys(arrows@),
            body_arrows(theory@, exprs_view(body@.take(i as int))) == Ok::<Map<Seq<char>, ArrowV>, ParseErrV>(arrow_map(arrows@)),
        decreases body.len() - i,
    {
        let ghost pre = exprs_view(body@.take(i as int));
        proof {
            lemma_exprs_view(body@.take(i + 1));
            lemma_exprs_view(body@.take(i as int));
            lemma_exprs_view(body@);
            assert(exprs_view(body@.take(i + 1)).drop_last() =~= pre);
            assert(exprs_view(body@.take(i + 1)).last() == expr_view(body@[i as int]));
        }
        match arrow_from(&body[i]) {
            None => {
                proof {
                    assert(exprs_view(body@).take(i + 1) =~= exprs_view(body@.take(i + 1)));
                    lemma_body_error_stays(theory@, exprs_view(body@), i + 1);
                }
                return Err(ParseRawError::InvalidArrowDeclaration { theory: theory.to_string(), declaration: clone_expr(&body[i]) });
            },
            Some(a) => {
                let p = position(&arrows, a.key());
                proof {
                    lemma_position_has_key(arrows@, a.key_of(), p as int);
                    lemma_keyed_map(arrows@);
                    assert(arrow_map(arrows@).dom() =~= keyed_map(arrows@).dom());
                }
                if p < arrows.len() && text_eq(arrows[p].key(), a.key()) {
                    proof {
                        assert(arrow_map(arrows@).dom().contains(a@.name));
                        assert(exprs_view(body@).take(i + 1) =~= exprs_view(body@.take(i + 1)));
                        assert(arrow_of(exprs_view(body@.take(i + 1)).last()) == Some(a@));
                        assert(body_arrows(theory@, exprs_view(body@.take(i + 1))) is Err);
                        lemma_body_error_stays(theory@, exprs_view(body@), i + 1);
                    }
                    return Err(ParseRawError::DuplicateArrow { theory: theory.to_string(), arrow: a.name });
                }
                proof {
                    assert(!has_key(arrows@, a.key_of())) by {
                        if has_key(arrows@, a.key_of()) {
                            let j = choose|j: int| 0 <= j < arrows@.len() && #[trigger] arrows@[j].key_of() == a.key_of();
                        }
                    }
                    lemma_insert_at_position(arrows@, a, p as int);
                    assert(keyed_map(arrows@).insert(a.key_of(), a).map_values(|x: RawTheoryArrow| x@) =~= arrow_map(arrows@).insert(a@.name, a@));
                }
                arrows.insert(p, a);
            },
        }
        i = i + 1;
    }
    proof {
        assert(body@.take(body.len() as int) =~= body@);
    }
    Ok(arrows)
}

/// The theory that a theory declaration declares, or why it is none.
fn theory_from_ref(h: &Expr) -> (r: Result<RawTheory, ParseRawError>)
    ensures
        match r {
            Ok(t) => t.wf() && theory_from(expr_view(*h)) == Ok::<RawTheoryV, ParseErrV>(t@),
            Err(e) => theory_from(expr_view(*h)) == Err::<RawTheoryV, ParseErrV>(e@),
        },
{
    match h {
        Expr::Composition(parts) => {
            proof {
                lemma_exprs_view(parts@);
            }
            if parts.len() == 4 && is_operation(&parts[0], "theory") {
                match (&parts[1], &parts[2], &parts[3]) {
                    (Expr::Operation(name), Expr::Operation(cat), Expr::Tensor(body)) => {
                        match arrows_from_body(name.as_str(), body) {
                            Ok(arrows) => Ok(RawTheory { name: name.clone(), syntax_category: cat.clone(), arrows }),
                            Err(e) => Err(e),
                        }
                    },
                    _ => Err(ParseRawError::InvalidTheoryDeclaration(clone_expr(h))),
                }
            } else {
                Err(ParseRawError::InvalidTheoryDeclaration(clone_expr(h)))
            }
        },
        _ => Err(ParseRawError::InvalidTheoryDeclaration(clone_expr(h))),
    }
}

impl RawTheory {
    /// Reads a theory declaration `(theory name syntax { arrows })`, naming
    /// the first body item that is not an arrow declaration or repeats an
    /// arrow name.
    pub fn from_hexpr(hexpr: Expr) -> (r: Result<RawTheory, ParseRawError>)
        ensures
            match r {
                Ok(t) => t.wf() && theory_from(expr_view(hexpr)) == Ok::<RawTheoryV, ParseErrV>(t@),
                Err(e) => theory_from(expr_view(hexpr)) == Err::<RawTheoryV, ParseErrV>(e@),
            },
    {
        theory_from_ref(&hexpr)
    }

    /// The arrow of this name.
    pub fn arrow(&self, name: &str) -> (r: Option<&RawTheoryArrow>)
        requires
            self.wf(),
        ensures
            match r {
                Some(a) => self@.arrows.dom().contains(name@) && self@.arrows[name@] == a@ && a.name@ == name@,
                None => !self@.arrows.dom().contains(name@),
            },
    {
        find_arrow(&self.arrows, name)
    }
}

impl Extension {
    /// The arrow of this name.
    pub fn arrow(&self, name: &str) -> (r: Option<&RawTheoryArrow>)
        requires
            self.wf(),
        ensures
            match r {
                Some(a) => self@.arrows.dom().contains(name@) && self@.arrows[name@] == a@ && a.name@ == name@,
                None => !self@.arrows.dom().contains(name@),
            },
    {
        find_arrow(&self.arrows, name)
    }
}

/// The arrow of this name in a sorted list.
fn find_arrow<'a>(arrows: &'a Vec<RawTheoryArrow>, name: &str) -> (r: Option<&'a RawTheoryArrow>)
    requires
        sorted_keys(arrows@),
    ensures
        match r {
            Some(a) => arrow_map(arrows@).dom().contains(name@) && arrow_map(arrows@)[name@] == a@ && a.name@ == name@,
            None => !arrow_map(arrows@).dom().contains(name@),
        },
{
    let p = position(arrows, name);
    proof {
        lemma_position_has_key(arrows@, name@, p as int);
        lemma_keyed_map(arrows@);
    }
    if p < arrows.len() && text_eq(arrows[p].key(), name) {
        Some(&arrows[p])
    } else {
        proof {
            if has_key(arrows@, name@) {
                let i = choose|i: int| 0 <= i < arrows@.len() && #[trigger] arrows@[i].key_of() == name@;
            }
        }
        None
    }
}

/// The extension that a top-level definition declares.
fn extension_from(h: &Expr) -> (r: Option<Extension>)
    ensures
        match r {
            Some(x) => x.wf() && extension_of(expr_view(*h)) == Some(x@),
            None => extension_of(expr_view(*h)) is None,
        },
{
    match h {
        Expr::Composition(parts) => {
            proof {
                lemma_exprs_view(parts@);
            }
            if parts.len() == 9 && is_operation(&parts[0], "def") && is_operation(&parts[3], ":") && is_operation(&parts[5], "->")
                && is_operation(&parts[7], "=") {
                match (&parts[1], &parts[2]) {
                    (Expr::Operation(theory), Expr::Operation(name)) => {
                        let arrow = RawTheoryArrow {
                            name: name.clone(),
                            type_maps: (clone_expr(&parts[4]), clone_expr(&parts[6])),
                            definition: Some(clone_expr(&parts[8])),
                        };
                        let mut arrows: Vec<RawTheoryArrow> = Vec::new();
                        arrows.push(arrow);
                        let x = Extension { theory: theory.clone(), arrows };
                        proof {
                            assert(arrows@.drop_last() =~= Seq::<RawTheoryArrow>::empty());
                            assert(keyed_map(arrows@) == keyed_map(Seq::<RawTheoryArrow>::empty()).insert(arrows@[0].key_of(), arrows@[0]));
                            assert(keyed_map(Seq::<RawTheoryArrow>::empty()) == Map::<Seq<char>, RawTheoryArrow>::empty());
                            assert(arrow_map(arrows@) =~= Map::<Seq<char>, ArrowV>::empty().insert(name@, arrow@));
                        }
                        Some(x)
                    },
                    _ => None,
                }
            } else {
                None
            }
        },
        _ => None,
    }
}

/// A top-level item as a plain value.
spec fn top_level_view(t: RawTopLevel) -> TopLevelV {
    match t {
        RawTopLevel::Theory(x) => TopLevelV::Theory(x@),
        RawTopLevel::Extension(x) => TopLevelV::Extension(x@),
    }
}

/// The top-level item's theory or extension has its arrows sorted.
spec fn top_level_wf(t: RawTopLevel) -> bool {
    match t {
        RawTopLevel::Theory(x) => x.wf(),
        RawTopLevel::Extension(x) => x.wf(),
    }
}

/// What a top-level item is.
fn top_level_from(h: &Expr) -> (r: Result<RawTopLevel, ParseRawError>)
    ensures
        match r {
            Ok(t) => top_level_wf(t) && top_level_of(expr_view(*h)) == Ok::<TopLevelV, ParseErrV>(top_level_view(t)),
            Err(e) => top_level_of(expr_view(*h)) == Err::<TopLevelV, ParseErrV>(e@),
        },
{
    if let Ok(t) = theory_from_ref(h) {
        return Ok(RawTopLevel::Theory(t));
    }
    if let Some(x) = extension_from(h) {
        return Ok(RawTopLevel::Extension(x));
    }
    let starts_def = match h {
        Expr::Composition(parts) => {
            proof {
                lemma_exprs_view(parts@);
            }
            parts.len() > 0 && is_operation(&parts[0], "def")
        },
        _ => false,
    };
    if starts_def {
        Err(ParseRawError::InvalidTopLevelDefinition(clone_expr(h)))
    } else {
        Err(ParseRawError::InvalidTheoryDeclaration(clone_expr(h)))
    }
}

/// An error in a prefix of the top-level items is the error of all of them.
pub proof fn lemma_set_error_stays(s: Seq<ExprV>, k: int)
    requires
        0 <= k <= s.len(),
        raw_set_of(s.take(k)) is Err,
    ensures
        raw_set_of(s) == raw_set_of(s.take(k)),
    decreases s.len(),
{
    if k == s.len() {
        assert(s.take(k) =~= s);
    } else {
        assert(s.drop_last().take(k) =~= s.take(k));
        lemma_set_error_stays(s.drop_last(), k);
    }
}

impl RawTheorySet {
    /// Reads parsed top-level items, in order, into a raw theory set: the
    /// first item that is neither a theory nor a definition, or the first
    /// theory whose name was declared before, is the error.
    pub fn from_hexprs(hexprs: &Vec<Expr>) -> (r: Result<RawTheorySet, ParseRawError>)
        ensures
            match r {
                Ok(s) => s.wf() && raw_set_of(exprs_view(hexprs@)) == Ok::<RawTheorySetV, ParseErrV>(s@),
                Err(e) => raw_set_of(exprs_view(hexprs@)) == Err::<RawTheorySetV, ParseErrV>(e@),
            },
    {
        let mut theories: Vec<RawTheory> = Vec::new();
        let mut extensions: Vec<Extension> = Vec::new();
        let mut i: usize = 0;
        proof {
            assert(exprs_view(hexprs@.take(0)) =~= Seq::<ExprV>::empty());
            assert(theory_map(theories@) =~= Map::<Seq<char>, RawTheoryV>::empty());
            assert(extensions_view(extensions@) =~= Seq::<ExtensionV>::empty());
        }
        while i < hexprs.len()
            invariant
                i <= hexprs.len(),
                sorted_keys(theories@),
                forall|j: int| 0 <= j < theories@.len() ==> (#[trigger] theories@[j]).wf(),
                forall|j: int| 0 <= j < extensions@.len() ==> (#[trigger] extensions@[j]).wf(),
                raw_set_of(exprs_view(hexprs@.take(i as int))) == Ok::<RawTheorySetV, ParseErrV>(
                    RawTheorySetV { theories: theory_map(theories@), extensions: extensions_view(extensions@) },
                ),
            decreases hexprs.len() - i,
        {
            let ghost pre = exprs_view(hexprs@.take(i as int));
            proof {
                lemma_exprs_view(hexprs@.take(i + 1));
                lemma_exprs_view(hexprs@);
                assert(hexprs@.take(i + 1).drop_last() =~= hexprs@.take(i as int));
                assert(exprs_view(hexprs@.take(i + 1)).drop_last() =~= pre);
                assert(exprs_view(hexprs@.take(i + 1)).last() == expr_view(hexprs@[i as int]));
                assert(exprs_view(hexprs@).take(i + 1) =~= exprs_view(hexprs@.take(i + 1)));
            }
            match top_level_from(&hexprs[i]) {
                Err(e) => {
                    proof {
                        lemma_set_error_stays(exprs_view(hexprs@), i + 1);
                    }
                    return Err(e);
                },
                Ok(RawTopLevel::Theory(t)) => {
                    let p = position(&theories, t.key());
                    proof {
                        lemma_position_has_key(theories@, t.key_of(), p as int);
                        lemma_keyed_map(theories@);
                        assert(theory_map(theories@).dom() =~= keyed_map(theories@).dom());
                    }
                    if p < theories.len() && text_eq(theories[p].key(), t.key()) {
                        proof {
                            assert(theory_map(theories@).dom().contains(t@.name));
                            assert(raw_set_of(exprs_view(hexprs@.take(i + 1))) is Err);
                            lemma_set_error_stays(exprs_view(hexprs@), i + 1);
                        }
                        return Err(ParseRawError::DuplicateTheory(t.name));
                    }
                    proof {
                        assert(!has_key(theories@, t.key_of())) by {
                            if has_key(theories@, t.key_of()) {
                                let j = choose|j: int| 0 <= j < theories@.len() && #[trigger] theories@[j].key_of() == t.key_of();
                            }
                        }
                        lemma_insert_at_position(theories@, t, p as int);
                        assert(keyed_map(theories@).insert(t.key_of(), t).map_values(|x: RawTheory| x@) =~= theory_map(theories@).insert(t@.name, t@));
                        assert forall|j: int| 0 <= j < theories@.insert(p as int, t).len() implies (#[trigger] theories@.insert(p as int, t)[j]).wf() by {
                            if j < p {
                                assert(theories@.insert(p as int, t)[j] == theories@[j]);
                            } else if j > p {
                                assert(theories@.insert(p as int, t)[j] == theories@[j - 1]);
                            }
                        }
                    }
                    theories.insert(p, t);
                },
                Ok(RawTopLevel::Extension(x)) => {
                    let ghost before = extensions@;
                    extensions.push(x);
                    proof {
                        assert(extensions_view(extensions@) =~= extensions_view(before).push(x@));
                    }
                },
            }
            i = i + 1;
        }
        proof {
            assert(hexprs@.take(hexprs.len() as int) =~= hexprs@);
        }
        Ok(RawTheorySet { theories, extensions })
    }

    /// Parses a text into a raw theory set of zero or more theory
    /// declarations and top-level definitions. When the text is not a
    /// sequence of h-expressions the error is `Parse`; otherwise the result
    /// is that of `from_hexprs` on the parsed items.
    pub fn from_text(text: &str) -> (r: Result<RawTheorySet, ParseRawError>)
        ensures
            match parsed_hexprs(text@) {
                Err(m) => r matches Err(ParseRawError::Parse(x)) && x@ == m,
                Ok(hs) => match r {
                    Ok(s) => s.wf() && raw_set_of(hs) == Ok::<RawTheorySetV, ParseErrV>(s@),
                    Err(e) => raw_set_of(hs) == Err::<RawTheorySetV, ParseErrV>(e@),
                },
            },
    {
        match parse_hexprs(text) {
            Err(message) => Err(ParseRawError::Parse(message)),
            Ok(hexprs) => RawTheorySet::from_hexprs(&hexprs),
        }
    }

    /// The theory of this name.
    pub fn theory(&self, name: &str) -> (r: Option<&RawTheory>)
        requires
            self.wf(),
        ensures
            match r {
                Some(t) => self@.theories.dom().contains(name@) && self@.theories[name@] == t@ && t.wf() && t.name@ == name@,
                None => !self@.theories.dom().contains(name@),
            },
    {
        let p = position(&self.theories, name);
        proof {
            lemma_position_has_key(self.theories@, name@, p as int);
            lemma_keyed_map(self.theories@);
        }
        if p < self.theories.len() && text_eq(self.theories[p].key(), name) {
            Some(&self.theories[p])
        } else {
            proof {
                if has_key(self.theories@, name@) {
                    let i = choose|i: int| 0 <= i < self.theories@.len() && #[trigger] self.theories@[i].key_of() == name@;
                }
            }
            None
        }
    }
}

/// Merging with a set that has no theories changes nothing.
pub proof fn lemma_merge_with_nothing(a: Map<Seq<char>, RawTheoryV>)
    ensures
        forall|k: Seq<char>| !merge_fails(a, Map::empty(), k),
        merged_theories(a, Map::empty()) == a,
{
    assert(merged_theories(a, Map::empty()) =~= a);
}

/// Theory sets with no theory name in common merge into the union of their
/// theories.
pub proof fn lemma_merge_disjoint(a: Map<Seq<char>, RawTheoryV>, b: Map<Seq<char>, RawTheoryV>)
    requires
        a.dom().disjoint(b.dom()),
    ensures
        forall|k: Seq<char>| !merge_fails(a, b, k),
        merged_theories(a, b) == a.union_prefer_right(b),
{
    assert forall|k: Seq<char>| !merge_fails(a, b, k) by {
        if a.dom().contains(k) && b.dom().contains(k) {
            assert(a.dom().intersect(b.dom()).contains(k));
        }
    }
    assert forall|k: Seq<char>| #[trigger] merged_theories(a, b).dom().contains(k) implies merged_theories(a, b)[k] == a.union_prefer_right(b)[k] by {
        if a.dom().contains(k) && b.dom().contains(k) {
            assert(a.dom().intersect(b.dom()).contains(k));
        }
    }
    assert(merged_theories(a, b) =~= a.union_prefer_right(b));
}

/// Two declarations of a theory with the same syntax theory and no arrow
/// name in common merge, and the merge has the arrows of both.
pub proof fn lemma_theory_merge_disjoint(a: RawTheoryV, b: RawTheoryV)
    requires
        a.syntax_category == b.syntax_category,
        a.arrows.dom().finite(),
        b.arrows.dom().finite(),
        a.arrows.dom().disjoint(b.arrows.dom()),
    ensures
        theory_merge(a, b) is Ok,
        theory_merge(a, b)->Ok_0.arrows.dom() == a.arrows.dom() + b.arrows.dom(),
        theory_merge(a, b)->Ok_0.arrows.len() == a.arrows.len() + b.arrows.len(),
{
    assert(!meet(a.arrows.dom(), b.arrows.dom())) by {
        if meet(a.arrows.dom(), b.arrows.dom()) {
            let k = choose|k: Seq<char>| a.arrows.dom().contains(k) && b.arrows.dom().contains(k);
            assert(a.arrows.dom().intersect(b.arrows.dom()).contains(k));
        }
    }
    let u = a.arrows.union_prefer_right(b.arrows);
    assert(u.dom() =~= a.arrows.dom() + b.arrows.dom());
    vstd::set_lib::lemma_set_disjoint_lens(a.arrows.dom(), b.arrows.dom());
}

/// The theories of a file that holds theory declarations only, sorted by
/// name.
#[derive(Debug)]
pub struct RawFile {
    pub theories: Vec<RawTheory>,
}

impl View for RawFile {
    type V = Map<Seq<char>, RawTheoryV>;

    open spec fn view(&self) -> Map<Seq<char>, RawTheoryV> {
        theory_map(self.theories@)
    }
}

impl RawFile {
    /// The theories are sorted by name and each has its arrows sorted.
    pub open spec fn wf(&self) -> bool {
        &&& sorted_keys(self.theories@)
        &&& forall|i: int| 0 <= i < self.theories.len() ==> (#[trigger] self.theories@[i]).wf()
    }
}

/// The theories of a file of theory declarations, read in order: the first
/// item that is not a theory declaration, or the first theory whose name
/// was declared before, is the error.
pub open spec fn raw_file_of(hs: Seq<ExprV>) -> Result<Map<Seq<char>, RawTheoryV>, ParseErrV>
    decreases hs.len(),
{
    if hs.len() == 0 {
        Ok(Map::empty())
    } else {
        match raw_file_of(hs.drop_last()) {
            Err(e) => Err(e),
            Ok(m) => match theory_from(hs.last()) {
                Err(_) => Err(ParseErrV::InvalidTheoryDeclaration(hs.last())),
                Ok(t) => if m.dom().contains(t.name) {
                    Err(ParseErrV::DuplicateTheory(t.name))
                } else {
                    Ok(m.insert(t.name, t))
                },
            },
        }
    }
}

/// An error in a prefix of the items is the error of all of them.
pub proof fn lemma_file_error_stays(s: Seq<ExprV>, k: int)
    requires
        0 <= k <= s.len(),
        raw_file_of(s.take(k)) is Err,
    ensures
        raw_file_of(s) == raw_file_of(s.take(k)),
    decreases s.len(),
{
    if k == s.len() {
        assert(s.take(k) =~= s);
    } else {
        assert(s.drop_last().take(k) =~= s.take(k));
        lemma_file_error_stays(s.drop_last(), k);
    }
}

impl RawFile {
    /// Reads parsed items, each a theory declaration, into a file.
    pub fn from_hexprs(hexprs: &Vec<Expr>) -> (r: Result<RawFile, ParseRawError>)
        ensures
            match r {
                Ok(f) => f.wf() && raw_file_of(exprs_view(hexprs@)) == Ok::<Map<Seq<char>, RawTheoryV>, ParseErrV>(f@),
                Err(e) => raw_file_of(exprs_view(hexprs@)) == Err::<Map<Seq<char>, RawTheoryV>, ParseErrV>(e@),
            },
    {
        let mut theories: Vec<RawTheory> = Vec::new();
        let mut i: usize = 0;
        proof {
            assert(exprs_view(hexprs@.take(0)) =~= Seq::<ExprV>::empty());
            assert(theory_map(theories@) =~= Map::<Seq<char>, RawTheoryV>::empty());
        }
        while i < hexprs.len()
            invariant
                i <= hexprs.len(),
                sorted_keys(theories@),
                forall|j: int| 0 <= j < theories@.len() ==> (#[trigger] theories@[j]).wf(),
                raw_file_of(exprs_view(hexprs@.take(i as int))) == Ok::<Map<Seq<char>, RawTheoryV>, ParseErrV>(theory_map(theories@)),
            decreases hexprs.len() - i,
        {
            let ghost pre = exprs_view(hexprs@.take(i as int));
            proof {
                lemma_exprs_view(hexprs@.take(i + 1));
                lemma_exprs_view(hexprs@);
                assert(hexprs@.take(i + 1).drop_last() =~= hexprs@.take(i as int));
                assert(exprs_view(hexprs@.take(i + 1)).drop_last() =~= pre);
                assert(exprs_view(hexprs@.take(i + 1)).last() == expr_view(hexprs@[i as int]));
                assert(exprs_view(hexprs@).take(i + 1) =~= exprs_view(hexprs@.take(i + 1)));
            }
            match theory_from_ref(&hexprs[i]) {
                Err(_) => {
                    proof {
                        lemma_file_error_stays(exprs_view(hexprs@), i + 1);
                    }
                    return Err(ParseRawError::InvalidTheoryDeclaration(clone_expr(&hexprs[i])));
                },
                Ok(t) => {
                    let p = position(&theories, t.key());
                    proof {
                        lemma_position_has_key(theories@, t.key_of(), p as int);
                        lemma_keyed_map(theories@);
                        assert(theory_map(theories@).dom() =~= keyed_map(theories@).dom());
                    }
                    if p < theories.len() && text_eq(theories[p].key(), t.key()) {
                        proof {
                            assert(theory_map(theories@).dom().contains(t@.name));
                            assert(raw_file_of(exprs_view(hexprs@.take(i + 1))) is Err);
                            lemma_file_error_stays(exprs_view(hexprs@), i + 1);
                        }
                        return Err(ParseRawError::DuplicateTheory(t.name));
                    }
                    proof {
                        assert(!has_key(theories@, t.key_of())) by {
                            if has_key(theories@, t.key_of()) {
                                let j = choose|j: int| 0 <= j < theories@.len() && #[trigger] theories@[j].key_of() == t.key_of();
                            }
                        }
                        lemma_insert_at_position(theories@, t, p as int);
                        assert(keyed_map(theories@).insert(t.key_of(), t).map_values(|x: RawTheory| x@) =~= theory_map(theories@).insert(t@.name, t@));
                        assert forall|j: int| 0 <= j < theories@.insert(p as int, t).len() implies (#[trigger] theories@.insert(p as int, t)[j]).wf() by {
                            if j < p {
                                assert(theories@.insert(p as int, t)[j] == theories@[j]);
                            } else if j > p {
                                assert(theories@.insert(p as int, t)[j] == theories@[j - 1]);
                            }
                        }
                    }
                    theories.insert(p, t);
                },
            }
            i = i + 1;
        }
        proof {
            assert(hexprs@.take(hexprs.len() as int) =~= hexprs@);
        }
        Ok(RawFile { theories })
    }

    /// Parses a text of zero or more theory declarations. When the text is
    /// not a sequence of h-expressions the error is `Parse`; otherwise the
    /// result is that of `from_hexprs` on the parsed items.
    pub fn from_text(text: &str) -> (r: Result<RawFile, ParseRawError>)
        ensures
            match parsed_hexprs(text@) {
                Err(m) => r matches Err(ParseRawError::Parse(x)) && x@ == m,
                Ok(hs) => match r {
                    Ok(f) => f.wf() && raw_file_of(hs) == Ok::<Map<Seq<char>, RawTheoryV>, ParseErrV>(f@),
                    Err(e) => raw_file_of(hs) == Err::<Map<Seq<char>, RawTheoryV>, ParseErrV>(e@),
                },
            },
    {
        match parse_hexprs(text) {
            Err(message) => Err(ParseRawError::Parse(message)),
            Ok(hexprs) => RawFile::from_hexprs(&hexprs),
        }
    }

    /// Whether a theory of this name is in the file.
    pub fn contains_theory(&self, name: &str) -> (r: bool)
        requires
            self.wf(),
        ensures
            r == self@.dom().contains(name@),
    {
        let p = position(&self.theories, name);
        proof {
            lemma_position_has_key(self.theories@, name@, p as int);
            lemma_keyed_map(self.theories@);
            if has_key(self.theories@, name@) {
                let i = choose|i: int| 0 <= i < self.theories@.len() && #[trigger] self.theories@[i].key_of() == name@;
            }
        }
        p < self.theories.len() && text_eq(self.theories[p].key(), name)
    }
}

impl RawTheoryArrow {
    /// A copy of this arrow.
    pub fn copy(&self) -> (r: RawTheoryArrow)
        ensures
            r@ == self@,
    {
        let definition = match &self.definition {
            None => None,
            Some(d) => Some(clone_expr(d)),
        };
        RawTheoryArrow {
            name: self.name.clone(),
            type_maps: (clone_expr(&self.type_maps.0), clone_expr(&self.type_maps.1)),
            definition,
        }
    }
}

/// Copies of a list of arrows.
fn copy_arrows(v: &Vec<RawTheoryArrow>) -> (r: Vec<RawTheoryArrow>)
    ensures
        r@.len() == v@.len(),
        forall|i: int| 0 <= i < v@.len() ==> (#[trigger] r@[i])@ == v@[i]@,
{
    let mut r: Vec<RawTheoryArrow> = Vec::new();
    let mut i: usize = 0;
    while i < v.len()
        invariant
            i <= v@.len(),
            r@.len() == i,
            forall|j: int| 0 <= j < i ==> (#[trigger] r@[j])@ == v@[j]@,
        decreases v@.len() - i,
    {
        r.push(v[i].copy());
        i = i + 1;
    }
    r
}

/// Two lists whose items have the same names and plain values have the
/// same sortedness and the same map.
pub proof fn lemma_same_arrows(a: Seq<RawTheoryArrow>, b: Seq<RawTheoryArrow>)
    requires
        a.len() == b.len(),
        forall|i: int| 0 <= i < a.len() ==> (#[trigger] a[i])@ == b[i]@,
        sorted_keys(b),
    ensures
        sorted_keys(a),
        arrow_map(a) == arrow_map(b),
{
    assert forall|i: int| 0 <= i < a.len() implies #[trigger] a[i].key_of() == b[i].key_of() by {
        assert(a[i]@.name == b[i]@.name);
    }
    assert forall|i: int, j: int| 0 <= i < j < a.len() implies seq_lt(#[trigger] a[i].key_of(), #[trigger] a[j].key_of()) by {
        assert(a[i].key_of() == b[i].key_of());
        assert(a[j].key_of() == b[j].key_of());
    }
    lemma_keyed_map(a);
    lemma_keyed_map(b);
    assert forall|k: Seq<char>| #[trigger] arrow_map(a).dom().contains(k) <==> arrow_map(b).dom().contains(k) by {
        if has_key(a, k) {
            let i = choose|i: int| 0 <= i < a.len() && #[trigger] a[i].key_of() == k;
            assert(b[i].key_of() == k);
        }
        if has_key(b, k) {
            let i = choose|i: int| 0 <= i < b.len() && #[trigger] b[i].key_of() == k;
            assert(a[i].key_of() == k);
        }
    }
    assert forall|k: Seq<char>| #[trigger] arrow_map(a).dom().contains(k) implies arrow_map(a)[k] == arrow_map(b)[k] by {
        let i = choose|i: int| 0 <= i < a.len() && #[trigger] a[i].key_of() == k;
        assert(b[i].key_of() == k);
    }
    assert(arrow_map(a) =~= arrow_map(b));
}

impl RawTheory {
    /// A copy of this theory.
    pub fn copy(&self) -> (r: RawTheory)
        requires
            self.wf(),
        ensures
            r@ == self@,
            r.wf(),
    {
        let arrows = copy_arrows(&self.arrows);
        proof {
            lemma_same_arrows(arrows@, self.arrows@);
        }
        RawTheory { name: self.name.clone(), syntax_category: self.syntax_category.clone(), arrows }
    }
}

impl Extension {
    /// A copy of this extension.
    pub fn copy(&self) -> (r: Extension)
        requires
            self.wf(),
        ensures
            r@ == self@,
            r.wf(),
    {
        let arrows = copy_arrows(&self.arrows);
        proof {
            lemma_same_arrows(arrows@, self.arrows@);
        }
        Extension { theory: self.theory.clone(), arrows }
    }
}
/// The position of the name `key` in a sorted list: after every name that
/// comes before it.
pub fn position<T: Keyed>(v: &Vec<T>, key: &str) -> (p: usize)
    requires
        sorted_keys(v@),
    ensures
        is_position(v@, key@, p as int),
{
    let mut p: usize = 0;
    while p < v.len() && str_lt(v[p].key(), key)
        invariant
            p <= v.len(),
            forall|i: int| 0 <= i < p ==> seq_lt(#[trigger] v@[i].key_of(), key@),
        decreases v.len() - p,
    {
        p = p + 1;
    }
    assert forall|i: int| p <= i < v@.len() implies !seq_lt(#[trigger] v@[i].key_of(), key@) by {
        if i > p && seq_lt(v@[i].key_of(), key@) {
            lemma_lt_transitive(v@[p as int].key_of(), v@[i].key_of(), key@);
        }
    }
    p
}

} // verus!
