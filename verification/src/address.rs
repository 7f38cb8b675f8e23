//! The exec transport of a D-Bus address: a program with arguments whose
//! standard streams carry the bus connection.

use vstd::prelude::*;

use crate::message::{bytes_eq, extend_vec};
use vstd::string::StringSliceAdditionalSpecFns;
use vstd::utf8::encode_utf8;

verus! {

/// An error in an exec transport address.
#[derive(Clone, Copy, Debug, PartialEq, Eq, Structural)]
pub enum AddressError {
    /// The address has no `path` option.
    MissingPath,
}

/// An exec transport: the program to run, an optional override for its
/// first argument, and its positional arguments.
#[derive(Debug)]
pub struct UnixExec {
    /// The path of the program.
    pub path: String,
    /// What the program sees as its own name, when overridden.
    pub arg0: Option<String>,
    /// The positional arguments, in order.
    pub args: Vec<String>,
}

/// The value at the first pair whose key spells these bytes, if any.
pub open spec fn lookup(s: Seq<(String, String)>, key: Seq<u8>) -> Option<String>
    decreases s,
{
    if s.len() == 0 {
        None
    } else if encode_utf8(s[0].0@) == key {
        Some(s[0].1)
    } else {
        lookup(s.drop_first(), key)
    }
}

/// The decimal digit bytes of `n`.
pub open spec fn dec_bytes(n: int) -> Seq<u8>
    decreases n,
{
    if n < 10 {
        seq![(48 + (if n >= 0 { n } else { 0 })) as u8]
    } else {
        dec_bytes(n / 10) + seq![(48 + n % 10) as u8]
    }
}

/// The bytes of the key `argv<i>`.
pub open spec fn argv_key_bytes(i: int) -> Seq<u8> {
    seq![97u8, 114u8, 103u8, 118u8] + dec_bytes(i)
}

/// The run of values at the keys `argv<i>`, `argv<i+1>`, and so on, as
/// character sequences, up to the first key that is absent; `fuel` caps
/// how far the run may reach.
pub open spec fn argv_views(s: Seq<(String, String)>, i: int, fuel: nat) -> Seq<Seq<char>>
    decreases fuel,
{
    if fuel == 0 {
        Seq::empty()
    } else {
        match lookup(s, argv_key_bytes(i)) {
            None => Seq::empty(),
            Some(v) => seq![v@] + argv_views(s, i + 1, (fuel - 1) as nat),
        }
    }
}

/// The decimal digit bytes of `n`.
fn dec_digits(n: usize) -> (r: Vec<u8>)
    ensures
        r@ == dec_bytes(n as int),
    decreases n,
{
    if n < 10 {
        let mut v: Vec<u8> = Vec::new();
        v.push(48 + (n as u8));
        proof {
            assert(v@ =~= dec_bytes(n as int));
        }
        v
    } else {
        let mut v = dec_digits(n / 10);
        v.push(48 + ((n % 10) as u8));
        proof {
            assert(v@ =~= dec_bytes(n as int));
        }
        v
    }
}

/// The bytes of the key `argv<i>`.
fn argv_key(i: usize) -> (r: Vec<u8>)
    ensures
        r@ == argv_key_bytes(i as int),
{
    let mut v: Vec<u8> = Vec::new();
    v.push(97);
    v.push(114);
    v.push(103);
    v.push(118);
    let d = dec_digits(i);
    extend_vec(&mut v, d.as_slice());
    proof {
        assert(v@ =~= argv_key_bytes(i as int));
    }
    v
}

/// The value at the first pair whose key spells these bytes, copied out.
fn lookup_value(opts: &Vec<(String, String)>, key: &[u8]) -> (r: Option<String>)
    ensures
        match r {
            Some(v) => lookup(opts@, key@) matches Some(w) && v@ == w@,
            None => lookup(opts@, key@) is None,
        },
{
    let n = opts.len();
    let mut i: usize = 0;
    proof {
        assert(opts@.skip(0) =~= opts@);
    }
    while i < n
        invariant
            i <= n,
            n == opts@.len(),
            lookup(opts@, key@) == lookup(opts@.skip(i as int), key@),
        decreases n - i,
    {
        proof {
            assert(opts@.skip(i as int)[0] == opts@[i as int]);
            assert(opts@.skip(i as int).drop_first() =~= opts@.skip(i as int + 1));
        }
        if bytes_eq(opts[i].0.as_str().as_bytes(), key) {
            return Some(opts[i].1.clone());
        }
        i = i + 1;
    }
    proof {
        assert(opts@.skip(n as int) =~= Seq::<(String, String)>::empty());
    }
    None
}

impl UnixExec {
    /// An exec transport with the given path and arguments.
    pub fn new(path: String, arg0: Option<String>, args: Vec<String>) -> (r: UnixExec)
        ensures
            r.path == path,
            r.arg0 == arg0,
            r.args == args,
    {
        UnixExec { path, arg0, args }
    }

    /// Read an exec transport out of an address's options: `path` must be
    /// present, `argv0` may override the program's name, and `argv1`,
    /// `argv2`, and so on are the positional arguments, read in order up
    /// to the first index that is absent. No more arguments are read than
    /// there are options.
    pub fn from_options(opts: &Vec<(String, String)>) -> (r: Result<UnixExec, AddressError>)
        ensures
            r is Ok <==> lookup(opts@, "path".spec_bytes()) is Some,
            r matches Ok(u) ==> {
                &&& (lookup(opts@, "path".spec_bytes()) matches Some(p) && u.path@ == p@)
                &&& (match lookup(opts@, "argv0".spec_bytes()) {
                    Some(a) => u.arg0 matches Some(b) && b@ == a@,
                    None => u.arg0 is None,
                })
                &&& u.args@.len() == argv_views(opts@, 1, opts@.len() as nat).len()
                &&& (forall|j: int|
                    0 <= j < u.args@.len() ==> u.args@[j]@ == argv_views(
                        opts@,
                        1,
                        opts@.len() as nat,
                    )[j])
            },
            r matches Err(e) ==> e == AddressError::MissingPath,
    {
        let key_path: [u8; 4] = [112, 97, 116, 104];
        let key_argv0: [u8; 5] = [97, 114, 103, 118, 48];
        proof {
            reveal_strlit("path");
            reveal_strlit("argv0");
            vstd::string::is_ascii_spec_bytes("path");
            vstd::string::is_ascii_spec_bytes("argv0");
            assert(key_path@ =~= "path".spec_bytes());
            assert(key_argv0@ =~= "argv0".spec_bytes());
        }
        let path = match lookup_value(opts, key_path.as_slice()) {
            Some(p) => p,
            None => {
                return Err(AddressError::MissingPath);
            },
        };
        let arg0 = lookup_value(opts, key_argv0.as_slice());
        let ghost fuel = opts@.len() as nat;
        let ghost av = argv_views(opts@, 1, fuel);
        let mut args: Vec<String> = Vec::new();
        let mut k: usize = 0;
        let n = opts.len();
        proof {
            assert(av.skip(0) =~= av);
        }
        while k < n
            invariant
                k <= n,
                n == opts@.len(),
                fuel == opts@.len(),
                av == argv_views(opts@, 1, fuel),
                (lookup(opts@, "path".spec_bytes()) matches Some(p) && path@ == p@),
                (match lookup(opts@, "argv0".spec_bytes()) {
                    Some(a) => arg0 matches Some(b) && b@ == a@,
                    None => arg0 is None,
                }),
                args@.len() == k,
                args@.len() <= av.len(),
                forall|j: int| 0 <= j < args@.len() ==> args@[j]@ == av[j],
                av.skip(args@.len() as int) == argv_views(
                    opts@,
                    k as int + 1,
                    (fuel - k as int) as nat,
                ),
            decreases n - k,
        {
            let i = k + 1;
            let key = argv_key(i);
            match lookup_value(opts, key.as_slice()) {
                Some(v) => {
                    proof {
                        assert(argv_views(opts@, i as int, (fuel - k as int) as nat)
                            == seq![lookup(opts@, argv_key_bytes(i as int))->Some_0@]
                            + argv_views(opts@, i as int + 1, (fuel - k as int - 1) as nat));
                        assert(av.skip(args@.len() as int)[0] == av[args@.len() as int]);
                        assert(av.skip(args@.len() as int).drop_first() =~= av.skip(
                            args@.len() as int + 1,
                        ));
                    }
                    args.push(v);
                },
                None => {
                    proof {
                        assert(av.skip(args@.len() as int) =~= Seq::<Seq<char>>::empty());
                    }
                    return Ok(UnixExec { path, arg0, args });
                },
            }
            k = k + 1;
        }
        proof {
            assert(argv_views(opts@, k as int + 1, (fuel - k as int) as nat)
                =~= Seq::<Seq<char>>::empty());
            assert(av.skip(args@.len() as int) =~= Seq::<Seq<char>>::empty());
        }
        Ok(UnixExec { path, arg0, args })
    }
}

} // verus!
