use vstd::prelude::*;

use crate::text::chars_string;
use crate::text::str_chars;

verus! {

/// How a path is resolved against a base: a leading slash on the path is
/// dropped, and the two are joined with exactly one slash between them.
pub open spec fn resolve_spec(base: Seq<char>, path: Seq<char>) -> Seq<char> {
    let rel = if path.len() > 0 && path[0] == '/' {
        path.drop_first()
    } else {
        path
    };
    if base.len() > 0 && base.last() == '/' {
        base + rel
    } else {
        base + seq!['/'] + rel
    }
}

/// General information about the hosting environment: the base URL under
/// which the application's assets are resolved.
#[derive(Debug)]
pub struct AppContext {
    base_url: String,
}

impl View for AppContext {
    type V = Seq<char>;

    closed spec fn view(&self) -> Seq<char> {
        self.base_url@
    }
}

impl AppContext {
    pub fn new(base_url: String) -> (r: Self)
        ensures
            r@ == base_url@,
    {
        AppContext { base_url }
    }

    /// The base every path is resolved against.
    pub fn base_url(&self) -> (r: &str)
        ensures
            r@ == self@,
    {
        self.base_url.as_str()
    }

    /// Resolves a path against the base URL.
    pub fn resolve_path(&self, path: &str) -> (r: String)
        ensures
            r@ == resolve_spec(self@, path@),
    {
        let b = str_chars(self.base_url.as_str());
        let p = str_chars(path);
        let mut out: Vec<char> = Vec::new();
        let nb: usize = b.len();
        for i in 0..nb
            invariant
                nb == b@.len(),
                out@ =~= b@.take(i as int),
        {
            out.push(b[i]);
        }
        proof {
            assert(out@ =~= b@);
        }
        if !(nb > 0 && b[nb - 1] == '/') {
            out.push('/');
        }
        let start: usize = if p.len() > 0 && p[0] == '/' {
            1
        } else {
            0
        };
        let np: usize = p.len();
        let ghost mid = out@;
        let mut j: usize = start;
        while j < np
            invariant
                start <= j <= np,
                np == p@.len(),
                out@ =~= mid + p@.subrange(start as int, j as int),
            decreases np - j,
        {
            out.push(p[j]);
            j += 1;
        }
        proof {
            if start == 1 {
                assert(p@.subrange(1, np as int) =~= p@.drop_first());
            } else {
                assert(p@.subrange(0, np as int) =~= p@);
            }
            assert(out@ =~= resolve_spec(self@, path@));
        }
        chars_string(&out)
    }
}

} // verus!
