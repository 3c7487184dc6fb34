//! Names of the activation functions a layer can use.
use vstd::prelude::*;
use vstd::utf8::*;

verus! {

/// An activation function, chosen by name.
#[derive(Debug, Clone, Copy, PartialEq, Eq, Structural)]
pub enum Activation {
    Tanh,
    Relu,
    Identity,
}

/// The activation that `name` designates, if any.
pub open spec fn activation_named(name: Seq<char>) -> Option<Activation> {
    if name == "tanh"@ {
        Some(Activation::Tanh)
    } else if name == "relu"@ {
        Some(Activation::Relu)
    } else if name == "identity"@ {
        Some(Activation::Identity)
    } else {
        None
    }
}

/// The message given for an unknown activation name.
pub open spec fn unknown_activation_message(name: Seq<char>) -> Seq<char> {
    "Unknown activation function: '"@ + name + "'"@
}

/// The canonical name of each activation.
pub open spec fn activation_name(a: Activation) -> Seq<char> {
    match a {
        Activation::Tanh => "tanh"@,
        Activation::Relu => "relu"@,
        Activation::Identity => "identity"@,
    }
}

/// Two strings are equal exactly when their UTF-8 bytes are.
pub fn str_equal(a: &str, b: &str) -> (r: bool)
    ensures
        r == (a@ == b@),
{
    let x = a.as_bytes();
    let y = b.as_bytes();
    proof {
        encode_utf8_decode_utf8(a@);
        encode_utf8_decode_utf8(b@);
    }
    if x.len() != y.len() {
        proof {
            assert(x@ == encode_utf8(a@));
            assert(y@ == encode_utf8(b@));
        }
        return false;
    }
    let n = x.len();
    let mut i: usize = 0;
    while i < n
        invariant
            n == x@.len(),
            n == y@.len(),
            x@ == encode_utf8(a@),
            y@ == encode_utf8(b@),
            decode_utf8(encode_utf8(a@)) == a@,
            decode_utf8(encode_utf8(b@)) == b@,
            i <= n,
            forall|k: int| 0 <= k < i ==> x@[k] == y@[k],
        decreases n - i,
    {
        if x[i] != y[i] {
            proof {
                assert(x@ != y@);
                assert(x@ == encode_utf8(a@));
                assert(y@ == encode_utf8(b@));
            }
            return false;
        }
        i = i + 1;
    }
    assert(x@ == y@);
    true
}

impl Activation {
    /// The canonical name of the activation.
    pub fn name(&self) -> (s: &'static str)
        ensures
            s@ == activation_name(*self),
    {
        match self {
            Activation::Tanh => "tanh",
            Activation::Relu => "relu",
            Activation::Identity => "identity",
        }
    }
}

/// Finds the activation called `name`: "tanh", "relu" or "identity".
pub fn lookup(name: &str) -> (r: Result<Activation, String>)
    ensures
        match activation_named(name@) {
            Some(a) => r == Ok::<Activation, String>(a),
            None => r matches Err(msg) && msg@ == unknown_activation_message(name@),
        },
{
    proof {
        reveal_strlit("tanh");
        reveal_strlit("relu");
        reveal_strlit("identity");
    }
    if str_equal(name, "tanh") {
        Ok(Activation::Tanh)
    } else if str_equal(name, "relu") {
        Ok(Activation::Relu)
    } else if str_equal(name, "identity") {
        Ok(Activation::Identity)
    } else {
        let mut msg = String::from_str("Unknown activation function: '");
        msg.append(name);
        msg.append("'");
        Err(msg)
    }
}

/// Every activation is found again under its own name.
pub proof fn lemma_lookup_own_name(a: Activation)
    ensures
        activation_named(activation_name(a)) == Some(a),
{
    reveal_strlit("tanh");
    reveal_strlit("relu");
    reveal_strlit("identity");
    assert("relu"@[0] != "tanh"@[0]);
    assert("identity"@.len() != "tanh"@.len());
    assert("identity"@.len() != "relu"@.len());
}

} // verus!
