//! Parsed representation of D-Bus type signatures.

use vstd::prelude::*;

verus! {

/// A D-Bus type signature in parsed form.
///
/// `Unit` stands for "no data" and is only meaningful as a top-level
/// signature; it never occurs inside a container produced by the parser.
#[derive(Debug)]
pub enum Signature {
    /// The signature of the unit type: the empty signature string.
    Unit,
    /// An 8-bit unsigned integer (`y`).
    U8,
    /// A boolean (`b`).
    Bool,
    /// A 16-bit signed integer (`n`).
    I16,
    /// A 16-bit unsigned integer (`q`).
    U16,
    /// A 32-bit signed integer (`i`).
    I32,
    /// A 32-bit unsigned integer (`u`).
    U32,
    /// A 64-bit signed integer (`x`).
    I64,
    /// A 64-bit unsigned integer (`t`).
    U64,
    /// A 64-bit floating point number (`d`).
    F64,
    /// A string (`s`).
    Str,
    /// A signature (`g`).
    Signature,
    /// An object path (`o`).
    ObjectPath,
    /// A variant (`v`).
    Variant,
    /// A file descriptor (`h`).
    Fd,
    /// An array with the given element signature (`a...`).
    Array(Box<Signature>),
    /// A dictionary (`a{...}`).
    Dict {
        /// The signature of the keys.
        key: Box<Signature>,
        /// The signature of the values.
        value: Box<Signature>,
    },
    /// A structure with one or more field signatures (`(...)`).
    Structure(Vec<Signature>),
    /// A maybe type, specific to the GVariant dialect (`m...`).
    Maybe(Box<Signature>),
}

/// The mathematical model of a [`Signature`]: the same tree with
/// specification-level sequences for structure fields.
pub enum SigTree {
    Unit,
    U8,
    Bool,
    I16,
    U16,
    I32,
    U32,
    I64,
    U64,
    F64,
    Str,
    Signature,
    ObjectPath,
    Variant,
    Fd,
    Array(Box<SigTree>),
    Dict { key: Box<SigTree>, value: Box<SigTree> },
    Structure(Seq<SigTree>),
    Maybe(Box<SigTree>),
}

/// The model of a signature value.
pub open spec fn sig_view(s: Signature) -> SigTree
    decreases s,
{
    match s {
        Signature::Unit => SigTree::Unit,
        Signature::U8 => SigTree::U8,
        Signature::Bool => SigTree::Bool,
        Signature::I16 => SigTree::I16,
        Signature::U16 => SigTree::U16,
        Signature::I32 => SigTree::I32,
        Signature::U32 => SigTree::U32,
        Signature::I64 => SigTree::I64,
        Signature::U64 => SigTree::U64,
        Signature::F64 => SigTree::F64,
        Signature::Str => SigTree::Str,
        Signature::Signature => SigTree::Signature,
        Signature::ObjectPath => SigTree::ObjectPath,
        Signature::Variant => SigTree::Variant,
        Signature::Fd => SigTree::Fd,
        Signature::Array(child) => SigTree::Array(Box::new(sig_view(*child))),
        Signature::Dict { key, value } => SigTree::Dict {
            key: Box::new(sig_view(*key)),
            value: Box::new(sig_view(*value)),
        },
        Signature::Structure(fields) => SigTree::Structure(views_of(fields@)),
        Signature::Maybe(child) => SigTree::Maybe(Box::new(sig_view(*child))),
    }
}

/// The models of a sequence of signature values.
pub open spec fn views_of(l: Seq<Signature>) -> Seq<SigTree>
    decreases l,
{
    if l.len() == 0 {
        Seq::empty()
    } else {
        seq![sig_view(l[0])] + views_of(l.drop_first())
    }
}

impl View for Signature {
    type V = SigTree;

    open spec fn view(&self) -> SigTree {
        sig_view(*self)
    }
}

/// The canonical string form of a signature, as bytes. When `parens` is
/// false and the signature is a structure, the outermost parentheses are
/// omitted; nested structures always keep theirs.
pub open spec fn str_bytes(t: SigTree, parens: bool) -> Seq<u8>
    decreases t,
{
    match t {
        SigTree::Unit => Seq::empty(),
        SigTree::U8 => seq![121u8],
        SigTree::Bool => seq![98u8],
        SigTree::I16 => seq![110u8],
        SigTree::U16 => seq![113u8],
        SigTree::I32 => seq![105u8],
        SigTree::U32 => seq![117u8],
        SigTree::I64 => seq![120u8],
        SigTree::U64 => seq![116u8],
        SigTree::F64 => seq![100u8],
        SigTree::Str => seq![115u8],
        SigTree::Signature => seq![103u8],
        SigTree::ObjectPath => seq![111u8],
        SigTree::Variant => seq![118u8],
        SigTree::Fd => seq![104u8],
        SigTree::Array(child) => seq![97u8] + str_bytes(*child, true),
        SigTree::Dict { key, value } => seq![97u8, 123u8] + str_bytes(*key, true) + str_bytes(
            *value,
            true,
        ) + seq![125u8],
        SigTree::Structure(fields) => if parens {
            seq![40u8] + fields_bytes(fields) + seq![41u8]
        } else {
            fields_bytes(fields)
        },
        SigTree::Maybe(child) => seq![109u8] + str_bytes(*child, true),
    }
}

/// The concatenated canonical forms of a sequence of field signatures.
pub open spec fn fields_bytes(fields: Seq<SigTree>) -> Seq<u8>
    decreases fields,
{
    if fields.len() == 0 {
        Seq::empty()
    } else {
        str_bytes(fields[0], true) + fields_bytes(fields.drop_first())
    }
}

/// The characters spelled by a sequence of ASCII bytes.
pub open spec fn chars_of(s: Seq<u8>) -> Seq<char> {
    Seq::new(s.len(), |i: int| s[i] as char)
}

/// The canonical string form of a signature, as characters.
pub open spec fn str_chars(t: SigTree, parens: bool) -> Seq<char> {
    chars_of(str_bytes(t, parens))
}

/// Spelling distributes over concatenation of byte sequences.
pub proof fn lemma_chars_of_add(a: Seq<u8>, b: Seq<u8>)
    ensures
        chars_of(a + b) == chars_of(a) + chars_of(b),
{
    assert(chars_of(a + b) =~= chars_of(a) + chars_of(b));
}

/// The model of a sequence of signatures is the sequence of their models.
pub proof fn lemma_views_of(l: Seq<Signature>)
    ensures
        views_of(l).len() == l.len(),
        forall|i: int| 0 <= i < l.len() ==> views_of(l)[i] == sig_view(l[i]),
    decreases l,
{
    if l.len() > 0 {
        lemma_views_of(l.drop_first());
        assert forall|i: int| 0 <= i < l.len() implies views_of(l)[i] == sig_view(l[i]) by {
            if i > 0 {
                assert(views_of(l)[i] == views_of(l.drop_first())[i - 1]);
                assert(l.drop_first()[i - 1] == l[i]);
            }
        }
    }
}

/// The concatenated form of two field sequences is the concatenation of
/// their forms.
pub proof fn lemma_fields_bytes_concat(a: Seq<SigTree>, b: Seq<SigTree>)
    ensures
        fields_bytes(a + b) == fields_bytes(a) + fields_bytes(b),
    decreases a,
{
    if a.len() == 0 {
        assert(a + b =~= b);
        assert(fields_bytes(a) + fields_bytes(b) =~= fields_bytes(b));
    } else {
        lemma_fields_bytes_concat(a.drop_first(), b);
        assert((a + b).drop_first() =~= a.drop_first() + b);
        assert((a + b)[0] == a[0]);
        assert(str_bytes(a[0], true) + (fields_bytes(a.drop_first()) + fields_bytes(b)) =~= (
        str_bytes(a[0], true) + fields_bytes(a.drop_first())) + fields_bytes(b));
    }
}

/// Extending a prefix of fields by one element extends its concatenated form.
pub proof fn lemma_fields_bytes_snoc(l: Seq<SigTree>, i: int)
    requires
        0 <= i < l.len(),
    ensures
        fields_bytes(l.take(i + 1)) == fields_bytes(l.take(i)) + str_bytes(l[i], true),
{
    assert(l.take(i + 1) =~= l.take(i) + seq![l[i]]);
    lemma_fields_bytes_concat(l.take(i), seq![l[i]]);
    assert(seq![l[i]].drop_first() =~= Seq::<SigTree>::empty());
    assert(seq![l[i]].len() == 1 && seq![l[i]][0] == l[i]);
    assert(fields_bytes(seq![l[i]]) == str_bytes(l[i], true) + fields_bytes(
        Seq::<SigTree>::empty(),
    ));
    assert(fields_bytes(Seq::<SigTree>::empty()) == Seq::<u8>::empty());
    assert(str_bytes(l[i], true) + Seq::<u8>::empty() =~= str_bytes(l[i], true));
}

/// Splitting the concatenated form of a suffix of fields at its first element.
pub proof fn lemma_fields_bytes_split(l: Seq<SigTree>, i: int)
    requires
        0 <= i < l.len(),
    ensures
        fields_bytes(l.skip(i)) == str_bytes(l[i], true) + fields_bytes(l.skip(i + 1)),
{
    assert(l.skip(i).drop_first() =~= l.skip(i + 1));
    assert(l.skip(i)[0] == l[i]);
}

impl Signature {
    /// The size in bytes of the canonical string form of `self`, with outer
    /// parentheses counted on a top-level structure.
    pub fn string_len(&self) -> (r: usize)
        requires
            str_bytes(self@, true).len() <= usize::MAX,
        ensures
            r == str_bytes(self@, true).len(),
        decreases *self,
    {
        match self {
            Signature::Unit => 0,
            Signature::U8 => 1,
            Signature::Bool => 1,
            Signature::I16 => 1,
            Signature::U16 => 1,
            Signature::I32 => 1,
            Signature::U32 => 1,
            Signature::I64 => 1,
            Signature::U64 => 1,
            Signature::F64 => 1,
            Signature::Str => 1,
            Signature::Signature => 1,
            Signature::ObjectPath => 1,
            Signature::Variant => 1,
            Signature::Fd => 1,
            Signature::Array(child) => 1 + child.string_len(),
            Signature::Dict { key, value } => {
                let k = key.string_len();
                let v = value.string_len();
                3 + k + v
            },
            Signature::Structure(fields) => {
                proof {
                    lemma_views_of(fields@);
                }
                let ghost vs = views_of(fields@);
                let n = fields.len();
                let mut total: usize = 2;
                let mut i: usize = 0;
                proof {
                    assert(vs.skip(0) =~= vs);
                }
                while i < n
                    invariant
                        i <= n,
                        n == fields@.len(),
                        vs == views_of(fields@),
                        vs.len() == n,
                        forall|j: int| 0 <= j < n ==> vs[j] == sig_view(fields@[j]),
                        *self == Signature::Structure(*fields),
                        sig_view(*self) == SigTree::Structure(vs),
                        str_bytes(self@, true).len() <= usize::MAX,
                        total + fields_bytes(vs.skip(i as int)).len() == str_bytes(
                            self@,
                            true,
                        ).len(),
                    decreases n - i,
                {
                    proof {
                        lemma_fields_bytes_split(vs, i as int);
                        assert(decreases_to!(*self => self->Structure_0));
                        assert(self->Structure_0 == *fields);
                        assert(decreases_to!(*fields => fields@));
                        assert(decreases_to!(fields@ => fields@[i as int]));
                    }
                    let fl = fields[i].string_len();
                    total = total + fl;
                    i = i + 1;
                }
                proof {
                    assert(vs.skip(n as int) =~= Seq::<SigTree>::empty());
                }
                total
            },
            Signature::Maybe(child) => 1 + child.string_len(),
        }
    }

    /// Append the canonical string form of `self` to `w`. When
    /// `outer_parens` is false and `self` is a structure, the outermost
    /// parentheses are left out; nested structures always keep theirs.
    pub fn write_as_string(&self, w: &mut String, outer_parens: bool)
        ensures
            final(w)@ == old(w)@ + str_chars(self@, outer_parens),
        decreases *self,
    {
        proof {
            reveal_strlit("y");
            reveal_strlit("b");
            reveal_strlit("n");
            reveal_strlit("q");
            reveal_strlit("i");
            reveal_strlit("u");
            reveal_strlit("x");
            reveal_strlit("t");
            reveal_strlit("d");
            reveal_strlit("s");
            reveal_strlit("g");
            reveal_strlit("o");
            reveal_strlit("v");
            reveal_strlit("h");
            reveal_strlit("a");
            reveal_strlit("a{");
            reveal_strlit("}");
            reveal_strlit("(");
            reveal_strlit(")");
            reveal_strlit("m");
        }
        match self {
            Signature::Unit => {},
            Signature::U8 => w.append("y"),
            Signature::Bool => w.append("b"),
            Signature::I16 => w.append("n"),
            Signature::U16 => w.append("q"),
            Signature::I32 => w.append("i"),
            Signature::U32 => w.append("u"),
            Signature::I64 => w.append("x"),
            Signature::U64 => w.append("t"),
            Signature::F64 => w.append("d"),
            Signature::Str => w.append("s"),
            Signature::Signature => w.append("g"),
            Signature::ObjectPath => w.append("o"),
            Signature::Variant => w.append("v"),
            Signature::Fd => w.append("h"),
            Signature::Array(child) => {
                w.append("a");
                child.write_as_string(w, true);
            },
            Signature::Dict { key, value } => {
                w.append("a{");
                key.write_as_string(w, true);
                value.write_as_string(w, true);
                w.append("}");
            },
            Signature::Structure(fields) => {
                proof {
                    lemma_views_of(fields@);
                }
                let ghost vs = views_of(fields@);
                if outer_parens {
                    w.append("(");
                }
                let ghost opened = w@;
                let n = fields.len();
                let mut i: usize = 0;
                proof {
                    assert(vs.take(0) =~= Seq::<SigTree>::empty());
                    assert(w@ =~= opened + chars_of(fields_bytes(vs.take(0))));
                }
                while i < n
                    invariant
                        i <= n,
                        n == fields@.len(),
                        vs == views_of(fields@),
                        vs.len() == n,
                        forall|j: int| 0 <= j < n ==> vs[j] == sig_view(fields@[j]),
                        *self == Signature::Structure(*fields),
                        w@ == opened + chars_of(fields_bytes(vs.take(i as int))),
                        if outer_parens {
                            opened == old(w)@ + chars_of(seq![40u8])
                        } else {
                            opened == old(w)@
                        },
                    decreases n - i,
                {
                    proof {
                        assert(decreases_to!(*self => self->Structure_0));
                        assert(self->Structure_0 == *fields);
                        assert(decreases_to!(*fields => fields@));
                        assert(decreases_to!(fields@ => fields@[i as int]));
                    }
                    fields[i].write_as_string(w, true);
                    proof {
                        lemma_fields_bytes_snoc(vs, i as int);
                        lemma_chars_of_add(
                            fields_bytes(vs.take(i as int)),
                            str_bytes(vs[i as int], true),
                        );
                        assert(w@ =~= opened + chars_of(fields_bytes(vs.take(i as int + 1))));
                    }
                    i = i + 1;
                }
                if outer_parens {
                    w.append(")");
                }
                proof {
                    assert(vs.take(n as int) =~= vs);
                    assert(w@ =~= old(w)@ + str_chars(self@, outer_parens));
                }
            },
            Signature::Maybe(child) => {
                w.append("m");
                child.write_as_string(w, true);
            },
        }
        proof {
            assert(w@ =~= old(w)@ + str_chars(self@, outer_parens));
        }
    }

    /// Append the canonical string form of `self` to `w`, without outer
    /// parentheses on a top-level structure.
    pub fn write_as_string_no_parens(&self, w: &mut String)
        ensures
            final(w)@ == old(w)@ + str_chars(self@, false),
    {
        self.write_as_string(w, false)
    }

    /// The canonical string form of `self`, with outer parentheses on a
    /// top-level structure.
    pub fn to_string(&self) -> (r: String)
        ensures
            r@ == str_chars(self@, true),
    {
        let mut s = String::new();
        self.write_as_string(&mut s, true);
        proof {
            assert(s@ =~= str_chars(self@, true));
        }
        s
    }

    /// The canonical string form of `self`, without outer parentheses on a
    /// top-level structure.
    pub fn to_string_no_parens(&self) -> (r: String)
        ensures
            r@ == str_chars(self@, false),
    {
        let mut s = String::new();
        self.write_as_string(&mut s, false);
        proof {
            assert(s@ =~= str_chars(self@, false));
        }
        s
    }

    /// The canonical string form of `self`, as bytes.
    pub fn to_bytes(&self, outer_parens: bool) -> (r: Vec<u8>)
        ensures
            r@ == str_bytes(self@, outer_parens),
        decreases *self,
    {
        match self {
            Signature::Unit => {
                let r: Vec<u8> = Vec::new();
                proof {
                    assert(r@ =~= str_bytes(self@, outer_parens));
                }
                r
            },
            Signature::Array(child) => {
                let mut r: Vec<u8> = Vec::new();
                r.push(97);
                let mut c = child.to_bytes(true);
                r.append(&mut c);
                proof {
                    assert(r@ =~= str_bytes(self@, outer_parens));
                }
                r
            },
            Signature::Dict { key, value } => {
                let mut r: Vec<u8> = Vec::new();
                r.push(97);
                r.push(123);
                let mut k = key.to_bytes(true);
                r.append(&mut k);
                let mut v = value.to_bytes(true);
                r.append(&mut v);
                r.push(125);
                proof {
                    assert(r@ =~= str_bytes(self@, outer_parens));
                }
                r
            },
            Signature::Structure(fields) => {
                proof {
                    lemma_views_of(fields@);
                }
                let ghost vs = views_of(fields@);
                let mut r: Vec<u8> = Vec::new();
                if outer_parens {
                    r.push(40);
                }
                let ghost opened = r@;
                let n = fields.len();
                let mut i: usize = 0;
                proof {
                    assert(vs.take(0) =~= Seq::<SigTree>::empty());
                    assert(r@ =~= opened + fields_bytes(vs.take(0)));
                }
                while i < n
                    invariant
                        i <= n,
                        n == fields@.len(),
                        vs == views_of(fields@),
                        vs.len() == n,
                        forall|j: int| 0 <= j < n ==> vs[j] == sig_view(fields@[j]),
                        *self == Signature::Structure(*fields),
                        r@ == opened + fields_bytes(vs.take(i as int)),
                        if outer_parens {
                            opened == seq![40u8]
                        } else {
                            opened == Seq::<u8>::empty()
                        },
                    decreases n - i,
                {
                    proof {
                        assert(decreases_to!(*self => self->Structure_0));
                        assert(self->Structure_0 == *fields);
                        assert(decreases_to!(*fields => fields@));
                        assert(decreases_to!(fields@ => fields@[i as int]));
                    }
                    let mut f = fields[i].to_bytes(true);
                    r.append(&mut f);
                    proof {
                        lemma_fields_bytes_snoc(vs, i as int);
                        assert(r@ =~= opened + fields_bytes(vs.take(i as int + 1)));
                    }
                    i = i + 1;
                }
                if outer_parens {
                    r.push(41);
                }
                proof {
                    assert(vs.take(n as int) =~= vs);
                    assert(r@ =~= str_bytes(self@, outer_parens));
                }
                r
            },
            Signature::Maybe(child) => {
                let mut r: Vec<u8> = Vec::new();
                r.push(109);
                let mut c = child.to_bytes(true);
                r.append(&mut c);
                proof {
                    assert(r@ =~= str_bytes(self@, outer_parens));
                }
                r
            },
            _ => {
                let b: u8 = match self {
                    Signature::U8 => 121,
                    Signature::Bool => 98,
                    Signature::I16 => 110,
                    Signature::U16 => 113,
                    Signature::I32 => 105,
                    Signature::U32 => 117,
                    Signature::I64 => 120,
                    Signature::U64 => 116,
                    Signature::F64 => 100,
                    Signature::Str => 115,
                    Signature::Signature => 103,
                    Signature::ObjectPath => 111,
                    Signature::Variant => 118,
                    _ => 104,
                };
                let mut r: Vec<u8> = Vec::new();
                r.push(b);
                proof {
                    assert(r@ =~= str_bytes(self@, outer_parens));
                }
                r
            },
        }
    }

    /// A structure signature over the given field signatures.
    pub fn structure(fields: Vec<Signature>) -> (r: Signature)
        ensures
            r@ == SigTree::Structure(views_of(fields@)),
    {
        Signature::Structure(fields)
    }

    /// A structure signature over copies of the given field signatures.
    pub fn static_structure(fields: &[Signature]) -> (r: Signature)
        ensures
            r@ == SigTree::Structure(views_of(fields@)),
    {
        proof {
            lemma_views_of(fields@);
        }
        let n = fields.len();
        let mut out: Vec<Signature> = Vec::new();
        let mut i: usize = 0;
        while i < n
            invariant
                i <= n,
                n == fields@.len(),
                out@.len() == i,
                forall|j: int| 0 <= j < i ==> sig_view(out@[j]) == sig_view(fields@[j]),
            decreases n - i,
        {
            out.push(fields[i].clone());
            i = i + 1;
        }
        proof {
            lemma_views_of(out@);
            assert(views_of(out@) =~= views_of(fields@));
        }
        Signature::Structure(out)
    }

    /// An array signature with the given child signature.
    pub fn array(child: Signature) -> (r: Signature)
        ensures
            r@ == SigTree::Array(Box::new(child@)),
    {
        Signature::Array(Box::new(child))
    }

    /// An array signature over a copy of the given child signature.
    pub fn static_array(child: &Signature) -> (r: Signature)
        ensures
            r@ == SigTree::Array(Box::new(child@)),
    {
        Signature::Array(Box::new(child.clone()))
    }

    /// A dictionary signature with the given key and value signatures.
    pub fn dict(key: Signature, value: Signature) -> (r: Signature)
        ensures
            r@ == (SigTree::Dict { key: Box::new(key@), value: Box::new(value@) }),
    {
        Signature::Dict { key: Box::new(key), value: Box::new(value) }
    }

    /// A dictionary signature over copies of the given key and value
    /// signatures.
    pub fn static_dict(key: &Signature, value: &Signature) -> (r: Signature)
        ensures
            r@ == (SigTree::Dict { key: Box::new(key@), value: Box::new(value@) }),
    {
        Signature::Dict { key: Box::new(key.clone()), value: Box::new(value.clone()) }
    }

    /// A maybe signature with the given child signature.
    pub fn maybe(child: Signature) -> (r: Signature)
        ensures
            r@ == SigTree::Maybe(Box::new(child@)),
    {
        Signature::Maybe(Box::new(child))
    }

    /// A maybe signature over a copy of the given child signature.
    pub fn static_maybe(child: &Signature) -> (r: Signature)
        ensures
            r@ == SigTree::Maybe(Box::new(child@)),
    {
        Signature::Maybe(Box::new(child.clone()))
    }
}

impl Clone for Signature {
    /// A deep copy with the same model.
    fn clone(&self) -> (r: Signature)
        ensures
            r@ == self@,
        decreases *self,
    {
        match self {
            Signature::Unit => Signature::Unit,
            Signature::U8 => Signature::U8,
            Signature::Bool => Signature::Bool,
            Signature::I16 => Signature::I16,
            Signature::U16 => Signature::U16,
            Signature::I32 => Signature::I32,
            Signature::U32 => Signature::U32,
            Signature::I64 => Signature::I64,
            Signature::U64 => Signature::U64,
            Signature::F64 => Signature::F64,
            Signature::Str => Signature::Str,
            Signature::Signature => Signature::Signature,
            Signature::ObjectPath => Signature::ObjectPath,
            Signature::Variant => Signature::Variant,
            Signature::Fd => Signature::Fd,
            Signature::Array(child) => Signature::Array(Box::new((**child).clone())),
            Signature::Dict { key, value } => Signature::Dict {
                key: Box::new((**key).clone()),
                value: Box::new((**value).clone()),
            },
            Signature::Structure(fields) => {
                proof {
                    lemma_views_of(fields@);
                }
                let n = fields.len();
                let mut out: Vec<Signature> = Vec::new();
                let mut i: usize = 0;
                while i < n
                    invariant
                        i <= n,
                        n == fields@.len(),
                        *self == Signature::Structure(*fields),
                        out@.len() == i,
                        forall|j: int| 0 <= j < i ==> sig_view(out@[j]) == sig_view(fields@[j]),
                    decreases n - i,
                {
                    proof {
                        assert(decreases_to!(*self => self->Structure_0));
                        assert(self->Structure_0 == *fields);
                        assert(decreases_to!(*fields => fields@));
                        assert(decreases_to!(fields@ => fields@[i as int]));
                    }
                    out.push(fields[i].clone());
                    i = i + 1;
                }
                proof {
                    lemma_views_of(out@);
                    assert(views_of(out@) =~= views_of(fields@));
                }
                Signature::Structure(out)
            },
            Signature::Maybe(child) => Signature::Maybe(Box::new((**child).clone())),
        }
    }
}

} // verus!
