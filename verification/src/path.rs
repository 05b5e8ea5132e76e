//! Path elements and paths, and the byte order that sorts them.

use vstd::prelude::*;

verus! {

/// The byte that separates the elements of a path.
pub const SEPARATOR: u8 = 47;

/// How two values stand to each other in an order.
#[derive(Clone, Copy, Debug, PartialEq, Eq, Structural)]
pub enum Order {
    Less,
    Equal,
    Greater,
}

/// `a` and `b` agree on their first `k` bytes, and there `a` ends while `b`
/// goes on, or `a` has the smaller byte.
pub open spec fn lex_lt_at(a: Seq<u8>, b: Seq<u8>, k: int) -> bool {
    &&& 0 <= k <= a.len()
    &&& k < b.len()
    &&& forall|j: int| 0 <= j < k ==> a[j] == b[j]
    &&& (k < a.len() ==> a[k] < b[k])
}

/// `a` comes before `b` in lexicographic byte order.
pub open spec fn lex_lt(a: Seq<u8>, b: Seq<u8>) -> bool {
    exists|k: int| lex_lt_at(a, b, k)
}

/// No byte string comes before itself.
pub proof fn lemma_lex_irreflexive(a: Seq<u8>)
    ensures
        !lex_lt(a, a),
{
}

/// The order is transitive.
pub proof fn lemma_lex_transitive(a: Seq<u8>, b: Seq<u8>, c: Seq<u8>)
    requires
        lex_lt(a, b),
        lex_lt(b, c),
    ensures
        lex_lt(a, c),
{
    let k1 = choose|k: int| lex_lt_at(a, b, k);
    let k2 = choose|k: int| lex_lt_at(b, c, k);
    let k = if k1 <= k2 { k1 } else { k2 };
    assert(lex_lt_at(a, c, k));
}

/// Two byte strings of which neither comes before the other are equal.
pub proof fn lemma_lex_total(a: Seq<u8>, b: Seq<u8>)
    requires
        !lex_lt(a, b),
        !lex_lt(b, a),
    ensures
        a == b,
{
    lemma_lex_total_from(a, b, 0);
}

proof fn lemma_lex_total_from(a: Seq<u8>, b: Seq<u8>, k: int)
    requires
        !lex_lt(a, b),
        !lex_lt(b, a),
        0 <= k <= a.len(),
        k <= b.len(),
        forall|j: int| 0 <= j < k ==> a[j] == b[j],
    ensures
        a == b,
    decreases a.len() - k,
{
    if k == a.len() {
        if k < b.len() {
            assert(lex_lt_at(a, b, k));
        }
        assert(a =~= b);
    } else if k == b.len() {
        assert(lex_lt_at(b, a, k));
    } else {
        if a[k] < b[k] {
            assert(lex_lt_at(a, b, k));
        } else if b[k] < a[k] {
            assert(lex_lt_at(b, a, k));
        } else {
            lemma_lex_total_from(a, b, k + 1);
        }
    }
}

/// Of two byte strings at most one comes before the other.
pub proof fn lemma_lex_asymmetric(a: Seq<u8>, b: Seq<u8>)
    requires
        lex_lt(a, b),
    ensures
        !lex_lt(b, a),
{
    if lex_lt(b, a) {
        lemma_lex_transitive(a, b, a);
    }
}

/// Compares two byte strings in lexicographic order.
pub fn lex_order(a: &Vec<u8>, b: &Vec<u8>) -> (r: Order)
    ensures
        r == Order::Less <==> lex_lt(a@, b@),
        r == Order::Equal <==> a@ == b@,
        r == Order::Greater <==> lex_lt(b@, a@),
{
    let mut i: usize = 0;
    while i < a.len() && i < b.len()
        invariant
            i <= a.len(),
            i <= b.len(),
            forall|j: int| 0 <= j < i ==> a@[j] == b@[j],
        decreases a.len() - i,
    {
        if a[i] < b[i] {
            proof {
                assert(lex_lt_at(a@, b@, i as int));
                lemma_lex_asymmetric(a@, b@);
                lemma_lex_irreflexive(a@);
            }
            return Order::Less;
        }
        if b[i] < a[i] {
            proof {
                assert(lex_lt_at(b@, a@, i as int));
                lemma_lex_asymmetric(b@, a@);
                lemma_lex_irreflexive(a@);
            }
            return Order::Greater;
        }
        i += 1;
    }
    if i < b.len() {
        proof {
            assert(lex_lt_at(a@, b@, i as int));
            lemma_lex_asymmetric(a@, b@);
            lemma_lex_irreflexive(a@);
        }
        Order::Less
    } else if i < a.len() {
        proof {
            assert(lex_lt_at(b@, a@, i as int));
            lemma_lex_asymmetric(b@, a@);
            lemma_lex_irreflexive(a@);
        }
        Order::Greater
    } else {
        proof {
            assert(a@ =~= b@);
            lemma_lex_irreflexive(a@);
        }
        Order::Equal
    }
}

/// Whether `b` can be one element of a path: it has at least one byte, and
/// none of them is the separator.
pub open spec fn valid_element(b: Seq<u8>) -> bool {
    &&& b.len() > 0
    &&& forall|i: int| 0 <= i < b.len() ==> b[i] != SEPARATOR
}

/// One element of a path: the name of a file or of a directory.
#[derive(Debug, PartialEq, Eq, PartialOrd, Ord, Hash)]
pub struct PathElement {
    bytes: Vec<u8>,
}

impl View for PathElement {
    type V = Seq<u8>;

    closed spec fn view(&self) -> Seq<u8> {
        self.bytes@
    }
}

impl PathElement {
    #[verifier::type_invariant]
    spec fn inv(self) -> bool {
        valid_element(self.bytes@)
    }

    /// Makes a path element of `bytes`, if they are valid for one.
    pub fn new(bytes: Vec<u8>) -> (r: Option<PathElement>)
        ensures
            r is Some <==> valid_element(bytes@),
            r matches Some(e) ==> e@ == bytes@,
    {
        if bytes.len() == 0 {
            return None;
        }
        let mut i: usize = 0;
        while i < bytes.len()
            invariant
                i <= bytes.len(),
                forall|j: int| 0 <= j < i ==> bytes@[j] != SEPARATOR,
            decreases bytes.len() - i,
        {
            if bytes[i] == SEPARATOR {
                return None;
            }
            i += 1;
        }
        Some(PathElement { bytes })
    }

    /// The bytes of the element.
    pub fn as_bytes(&self) -> (b: &Vec<u8>)
        ensures
            b@ == self@,
            valid_element(b@),
    {
        proof {
            use_type_invariant(self);
        }
        &self.bytes
    }

    /// Compares two elements by their bytes.
    pub fn order(&self, other: &PathElement) -> (r: Order)
        ensures
            r == Order::Less <==> lex_lt(self@, other@),
            r == Order::Equal <==> self@ == other@,
            r == Order::Greater <==> lex_lt(other@, self@),
    {
        lex_order(&self.bytes, &other.bytes)
    }
}

impl Clone for PathElement {
    fn clone(&self) -> (r: PathElement)
        ensures
            r@ == self@,
    {
        proof {
            use_type_invariant(self);
        }
        let bytes = self.bytes.clone();
        assert(bytes@ =~= self.bytes@);
        PathElement { bytes }
    }
}

/// The views of a list of path elements.
pub open spec fn elements_view(v: Seq<PathElement>) -> Seq<Seq<u8>> {
    v.map_values(|e: PathElement| e@)
}

/// A path: the names on the way from the root down to a file or a
/// directory. The path without elements is the root's.
#[derive(Debug, PartialEq, Eq, PartialOrd, Ord, Hash)]
pub struct MPath {
    pub elements: Vec<PathElement>,
}

impl View for MPath {
    type V = Seq<Seq<u8>>;

    open spec fn view(&self) -> Seq<Seq<u8>> {
        elements_view(self.elements@)
    }
}

/// The bytes of a path: its elements with a separator between each two.
pub open spec fn path_bytes(elements: Seq<Seq<u8>>) -> Seq<u8>
    decreases elements.len(),
{
    if elements.len() == 0 {
        Seq::empty()
    } else if elements.len() == 1 {
        elements[0]
    } else {
        path_bytes(elements.drop_last()) + seq![SEPARATOR] + elements.last()
    }
}

/// Whether `b` is the bytes of a path: no separator stands at the start
/// or at the end, and no two stand side by side.
pub open spec fn well_formed_path(b: Seq<u8>) -> bool {
    b.len() > 0 ==> {
        &&& b[0] != SEPARATOR
        &&& b[b.len() - 1] != SEPARATOR
        &&& forall|k: int| 0 <= k < b.len() - 1 ==> !(#[trigger] b[k] == SEPARATOR && b[k + 1] == SEPARATOR)
    }
}

/// The element made of the bytes from `start` up to `end`, which hold no
/// separator.
fn element_of(bytes: &[u8], start: usize, end: usize) -> (r: PathElement)
    requires
        start < end <= bytes@.len(),
        forall|k: int| start <= k < end ==> bytes@[k] != SEPARATOR,
    ensures
        r@ == bytes@.subrange(start as int, end as int),
{
    let v = vstd::slice::slice_to_vec(vstd::slice::slice_subrange(bytes, start, end));
    proof {
        assert(valid_element(v@));
    }
    match PathElement::new(v) {
        Some(e) => e,
        None => {
            assert(false);
            PathElement { bytes: Vec::new() }
        },
    }
}

impl MPath {
    /// Reads a path from its bytes, which hold the elements with a
    /// separator between each two. No bytes at all are the root's path.
    pub fn new(bytes: &[u8]) -> (r: Option<MPath>)
        ensures
            r is Some <==> well_formed_path(bytes@),
            r matches Some(p) ==> path_bytes(p@) == bytes@,
    {
        let ghost b = bytes@;
        let n = bytes.len();
        let mut elements: Vec<PathElement> = Vec::new();
        if n == 0 {
            let p = MPath { elements };
            assert(p@ =~= Seq::empty());
            return Some(p);
        }
        let mut start: usize = 0;
        let mut i: usize = 0;
        while i < n
            invariant
                b == bytes@,
                n == b.len(),
                0 <= start <= i <= n,
                forall|k: int| start <= k < i ==> b[k] != SEPARATOR,
                elements.len() == 0 <==> start == 0,
                start > 0 ==> b[start - 1] == SEPARATOR && b[0] != SEPARATOR && path_bytes(
                    elements_view(elements@),
                ) == b.subrange(0, start - 1),
                forall|k: int| 0 <= k < start - 1 ==> !(#[trigger] b[k] == SEPARATOR && b[k + 1] == SEPARATOR),
                start > 0 ==> start - 1 > 0,
            decreases n - i,
        {
            if bytes[i] == SEPARATOR {
                if i == start {
                    proof {
                        if start > 0 {
                            assert(b[start - 1] == SEPARATOR && b[start - 1 + 1] == SEPARATOR);
                        }
                    }
                    return None;
                }
                let e = element_of(bytes, start, i);
                let ghost before = elements_view(elements@);
                elements.push(e);
                proof {
                    let now = elements_view(elements@);
                    assert(now =~= before.push(b.subrange(start as int, i as int)));
                    assert(now.drop_last() =~= before);
                    if start == 0 {
                        assert(path_bytes(now) == b.subrange(0, i as int));
                    } else {
                        assert(path_bytes(now) =~= b.subrange(0, start - 1) + seq![SEPARATOR] + b.subrange(
                            start as int,
                            i as int,
                        ));
                        assert(path_bytes(now) =~= b.subrange(0, i as int));
                    }
                    assert forall|k: int| 0 <= k < i implies !(#[trigger] b[k] == SEPARATOR && b[k + 1] == SEPARATOR) by {
                        if k >= start - 1 && k + 1 < i {
                            assert(b[k + 1] != SEPARATOR);
                        }
                        if k + 1 == i && k >= start {
                            assert(b[k] != SEPARATOR);
                        }
                    }
                }
                start = i + 1;
            }
            i += 1;
        }
        if start == n {
            return None;
        }
        let e = element_of(bytes, start, n);
        let ghost before = elements_view(elements@);
        elements.push(e);
        let p = MPath { elements };
        proof {
            let now = p@;
            assert(now =~= before.push(b.subrange(start as int, n as int)));
            assert(now.drop_last() =~= before);
            if start == 0 {
                assert(path_bytes(now) =~= b);
            } else {
                assert(path_bytes(now) =~= b.subrange(0, start - 1) + seq![SEPARATOR] + b.subrange(
                    start as int,
                    n as int,
                ));
                assert(path_bytes(now) =~= b);
            }
            assert forall|k: int| 0 <= k < b.len() - 1 implies !(#[trigger] b[k] == SEPARATOR && b[k + 1]
                == SEPARATOR) by {
                if k >= start - 1 {
                    assert(b[k + 1] != SEPARATOR);
                }
            }
        }
        Some(p)
    }

    /// The path made of `elements`.
    pub fn from_elements(elements: Vec<PathElement>) -> (p: MPath)
        ensures
            p@ == elements_view(elements@),
    {
        MPath { elements }
    }

    /// How many elements the path has.
    pub fn len(&self) -> (n: usize)
        ensures
            n == self@.len(),
    {
        self.elements.len()
    }
}

/// `a` and `b` agree on their first `k` elements, and there `a` ends
/// while `b` goes on, or `a` has the element that comes first.
pub open spec fn path_lt_at(a: Seq<Seq<u8>>, b: Seq<Seq<u8>>, k: int) -> bool {
    &&& 0 <= k <= a.len()
    &&& k < b.len()
    &&& forall|j: int| 0 <= j < k ==> a[j] == b[j]
    &&& (k < a.len() ==> lex_lt(a[k], b[k]))
}

/// The path `a` comes before the path `b`: paths are compared element
/// by element, each in lexicographic byte order, and a path comes before
/// every path that it is the beginning of.
pub open spec fn path_lt(a: Seq<Seq<u8>>, b: Seq<Seq<u8>>) -> bool {
    exists|k: int| path_lt_at(a, b, k)
}

/// No path comes before itself.
pub proof fn lemma_path_irreflexive(a: Seq<Seq<u8>>)
    ensures
        !path_lt(a, a),
{
    if path_lt(a, a) {
        let k = choose|k: int| path_lt_at(a, a, k);
        lemma_lex_irreflexive(a[k]);
    }
}

/// The order of paths is transitive.
pub proof fn lemma_path_transitive(a: Seq<Seq<u8>>, b: Seq<Seq<u8>>, c: Seq<Seq<u8>>)
    requires
        path_lt(a, b),
        path_lt(b, c),
    ensures
        path_lt(a, c),
{
    let k1 = choose|k: int| path_lt_at(a, b, k);
    let k2 = choose|k: int| path_lt_at(b, c, k);
    if k1 < k2 {
        assert(path_lt_at(a, c, k1));
    } else if k2 < k1 {
        assert(path_lt_at(a, c, k2));
    } else {
        if k1 < a.len() {
            lemma_lex_transitive(a[k1], b[k1], c[k1]);
        }
        assert(path_lt_at(a, c, k1));
    }
}

/// Two paths of which neither comes before the other are the same.
pub proof fn lemma_path_total(a: Seq<Seq<u8>>, b: Seq<Seq<u8>>)
    requires
        !path_lt(a, b),
        !path_lt(b, a),
    ensures
        a == b,
{
    lemma_path_total_from(a, b, 0);
}

proof fn lemma_path_total_from(a: Seq<Seq<u8>>, b: Seq<Seq<u8>>, k: int)
    requires
        !path_lt(a, b),
        !path_lt(b, a),
        0 <= k <= a.len(),
        k <= b.len(),
        forall|j: int| 0 <= j < k ==> a[j] == b[j],
    ensures
        a == b,
    decreases a.len() - k,
{
    if k == a.len() {
        if k < b.len() {
            assert(path_lt_at(a, b, k));
        }
        assert(a =~= b);
    } else if k == b.len() {
        assert(path_lt_at(b, a, k));
    } else {
        if lex_lt(a[k], b[k]) {
            assert(path_lt_at(a, b, k));
        } else if lex_lt(b[k], a[k]) {
            assert(path_lt_at(b, a, k));
        } else {
            lemma_lex_total(a[k], b[k]);
            lemma_path_total_from(a, b, k + 1);
        }
    }
}

/// Of two paths at most one comes before the other.
pub proof fn lemma_path_asymmetric(a: Seq<Seq<u8>>, b: Seq<Seq<u8>>)
    requires
        path_lt(a, b),
    ensures
        !path_lt(b, a),
{
    if path_lt(b, a) {
        lemma_path_transitive(a, b, a);
        lemma_path_irreflexive(a);
    }
}

impl MPath {
    /// Compares two paths element by element.
    pub fn order(&self, other: &MPath) -> (r: Order)
        ensures
            r == Order::Less <==> path_lt(self@, other@),
            r == Order::Equal <==> self@ == other@,
            r == Order::Greater <==> path_lt(other@, self@),
    {
        let ghost a = self@;
        let ghost b = other@;
        assert(a.len() == self.elements@.len() && b.len() == other.elements@.len());
        let mut i: usize = 0;
        while i < self.elements.len() && i < other.elements.len()
            invariant
                a == self@,
                b == other@,
                a.len() == self.elements@.len(),
                b.len() == other.elements@.len(),
                i <= a.len(),
                i <= b.len(),
                forall|j: int| 0 <= j < i ==> a[j] == b[j],
            decreases self.elements.len() - i,
        {
            let o = self.elements[i].order(&other.elements[i]);
            assert(a[i as int] == self.elements@[i as int]@ && b[i as int] == other.elements@[i as int]@);
            if o == Order::Less {
                proof {
                    assert(path_lt_at(a, b, i as int));
                    lemma_path_asymmetric(a, b);
                    lemma_path_irreflexive(a);
                }
                return Order::Less;
            }
            if o == Order::Greater {
                proof {
                    assert(path_lt_at(b, a, i as int));
                    lemma_path_asymmetric(b, a);
                    lemma_path_irreflexive(a);
                }
                return Order::Greater;
            }
            i += 1;
        }
        if i < other.elements.len() {
            proof {
                assert(path_lt_at(a, b, i as int));
                lemma_path_asymmetric(a, b);
                lemma_path_irreflexive(a);
            }
            Order::Less
        } else if i < self.elements.len() {
            proof {
                assert(path_lt_at(b, a, i as int));
                lemma_path_asymmetric(b, a);
                lemma_path_irreflexive(a);
            }
            Order::Greater
        } else {
            proof {
                assert(a =~= b);
                lemma_path_irreflexive(a);
            }
            Order::Equal
        }
    }
}

impl Clone for MPath {
    fn clone(&self) -> (r: MPath)
        ensures
            r@ == self@,
    {
        let mut elements: Vec<PathElement> = Vec::new();
        let mut i: usize = 0;
        while i < self.elements.len()
            invariant
                i <= self.elements.len(),
                elements_view(elements@) =~= self@.take(i as int),
            decreases self.elements.len() - i,
        {
            let ghost before = elements_view(elements@);
            elements.push(self.elements[i].clone());
            proof {
                assert(elements_view(elements@) =~= before.push(self@[i as int]));
                assert(self@.take(i + 1) =~= self@.take(i as int).push(self@[i as int]));
            }
            i += 1;
        }
        assert(self@.take(i as int) =~= self@);
        MPath { elements }
    }
}

} // verus!
