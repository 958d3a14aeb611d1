//! The reserved words of Lox: each is read as a token of its own kind.
use vstd::prelude::*;

use crate::parse::lex::scan::{
    alnum_end, is_alnum, is_alpha, keyword_tag, lemma_alnum_end_at, lemma_scan_token, scan_spec,
    scan_token_spec, scannable, word_char, ws_end,
};
use crate::parse::position::adv;
use crate::parse::roundtrip::lemma_position_of_ok;
use crate::parse::lex::scan::position_of;
use crate::parse::lex::scan::lemma_step_placed;
use crate::parse::token::{TokenTag, TokenV};

verus! {

/// The sixteen reserved words, numbered from 0.
pub open spec fn reserved_word(k: int) -> Seq<char> {
    if k == 0 {
        "and"@
    } else
    if k == 1 {
        "class"@
    } else
    if k == 2 {
        "else"@
    } else
    if k == 3 {
        "false"@
    } else
    if k == 4 {
        "for"@
    } else
    if k == 5 {
        "fun"@
    } else
    if k == 6 {
        "if"@
    } else
    if k == 7 {
        "nil"@
    } else
    if k == 8 {
        "or"@
    } else
    if k == 9 {
        "print"@
    } else
    if k == 10 {
        "return"@
    } else
    if k == 11 {
        "super"@
    } else
    if k == 12 {
        "this"@
    } else
    if k == 13 {
        "true"@
    } else
    if k == 14 {
        "var"@
    } else {
        "while"@
    }
}

/// The kind of token of each reserved word.
pub open spec fn reserved_tag(k: int) -> TokenTag {
    if k == 0 {
        TokenTag::And
    } else
    if k == 1 {
        TokenTag::Class
    } else
    if k == 2 {
        TokenTag::Else
    } else
    if k == 3 {
        TokenTag::False
    } else
    if k == 4 {
        TokenTag::For
    } else
    if k == 5 {
        TokenTag::Fun
    } else
    if k == 6 {
        TokenTag::If
    } else
    if k == 7 {
        TokenTag::Nil
    } else
    if k == 8 {
        TokenTag::Or
    } else
    if k == 9 {
        TokenTag::Print
    } else
    if k == 10 {
        TokenTag::Return
    } else
    if k == 11 {
        TokenTag::Super
    } else
    if k == 12 {
        TokenTag::This
    } else
    if k == 13 {
        TokenTag::True
    } else
    if k == 14 {
        TokenTag::Var
    } else {
        TokenTag::While
    }
}

proof fn lemma_reserved(k: int)
    requires
        0 <= k < 16,
    ensures
        keyword_tag(reserved_word(k)) == reserved_tag(k),
        reserved_word(k).len() >= 1,
        forall|m: int| 0 <= m < reserved_word(k).len() ==> is_alpha(#[trigger] reserved_word(k)[m]),
{
    reveal_strlit("and");
    reveal_strlit("class");
    reveal_strlit("else");
    reveal_strlit("false");
    reveal_strlit("for");
    reveal_strlit("fun");
    reveal_strlit("if");
    reveal_strlit("nil");
    reveal_strlit("or");
    reveal_strlit("print");
    reveal_strlit("return");
    reveal_strlit("super");
    reveal_strlit("this");
    reveal_strlit("true");
    reveal_strlit("var");
    reveal_strlit("while");
    if k == 0 {
        assert(reserved_word(k) == seq!['a', 'n', 'd']);
    }
    if k == 1 {
        assert("class"@[0] != "and"@[0]);
        assert(reserved_word(k) == seq!['c', 'l', 'a', 's', 's']);
    }
    if k == 2 {
        assert("else"@[0] != "and"@[0]);
        assert("else"@[0] != "class"@[0]);
        assert(reserved_word(k) == seq!['e', 'l', 's', 'e']);
    }
    if k == 3 {
        assert("false"@[0] != "and"@[0]);
        assert("false"@[0] != "class"@[0]);
        assert("false"@[0] != "else"@[0]);
        assert(reserved_word(k) == seq!['f', 'a', 'l', 's', 'e']);
    }
    if k == 4 {
        assert("for"@[0] != "and"@[0]);
        assert("for"@[0] != "class"@[0]);
        assert("for"@[0] != "else"@[0]);
        assert("for"@[1] != "false"@[1]);
        assert(reserved_word(k) == seq!['f', 'o', 'r']);
    }
    if k == 5 {
        assert("fun"@[0] != "and"@[0]);
        assert("fun"@[0] != "class"@[0]);
        assert("fun"@[0] != "else"@[0]);
        assert("fun"@[1] != "false"@[1]);
        assert("fun"@[1] != "for"@[1]);
        assert(reserved_word(k) == seq!['f', 'u', 'n']);
    }
    if k == 6 {
        assert("if"@[0] != "and"@[0]);
        assert("if"@[0] != "class"@[0]);
        assert("if"@[0] != "else"@[0]);
        assert("if"@[0] != "false"@[0]);
        assert("if"@[0] != "for"@[0]);
        assert("if"@[0] != "fun"@[0]);
        assert(reserved_word(k) == seq!['i', 'f']);
    }
    if k == 7 {
        assert("nil"@[0] != "and"@[0]);
        assert("nil"@[0] != "class"@[0]);
        assert("nil"@[0] != "else"@[0]);
        assert("nil"@[0] != "false"@[0]);
        assert("nil"@[0] != "for"@[0]);
        assert("nil"@[0] != "fun"@[0]);
        assert("nil"@[0] != "if"@[0]);
        assert(reserved_word(k) == seq!['n', 'i', 'l']);
    }
    if k == 8 {
        assert("or"@[0] != "and"@[0]);
        assert("or"@[0] != "class"@[0]);
        assert("or"@[0] != "else"@[0]);
        assert("or"@[0] != "false"@[0]);
        assert("or"@[0] != "for"@[0]);
        assert("or"@[0] != "fun"@[0]);
        assert("or"@[0] != "if"@[0]);
        assert("or"@[0] != "nil"@[0]);
        assert(reserved_word(k) == seq!['o', 'r']);
    }
    if k == 9 {
        assert("print"@[0] != "and"@[0]);
        assert("print"@[0] != "class"@[0]);
        assert("print"@[0] != "else"@[0]);
        assert("print"@[0] != "false"@[0]);
        assert("print"@[0] != "for"@[0]);
        assert("print"@[0] != "fun"@[0]);
        assert("print"@[0] != "if"@[0]);
        assert("print"@[0] != "nil"@[0]);
        assert("print"@[0] != "or"@[0]);
        assert(reserved_word(k) == seq!['p', 'r', 'i', 'n', 't']);
    }
    if k == 10 {
        assert("return"@[0] != "and"@[0]);
        assert("return"@[0] != "class"@[0]);
        assert("return"@[0] != "else"@[0]);
        assert("return"@[0] != "false"@[0]);
        assert("return"@[0] != "for"@[0]);
        assert("return"@[0] != "fun"@[0]);
        assert("return"@[0] != "if"@[0]);
        assert("return"@[0] != "nil"@[0]);
        assert("return"@[0] != "or"@[0]);
        assert("return"@[0] != "print"@[0]);
        assert(reserved_word(k) == seq!['r', 'e', 't', 'u', 'r', 'n']);
    }
    if k == 11 {
        assert("super"@[0] != "and"@[0]);
        assert("super"@[0] != "class"@[0]);
        assert("super"@[0] != "else"@[0]);
        assert("super"@[0] != "false"@[0]);
        assert("super"@[0] != "for"@[0]);
        assert("super"@[0] != "fun"@[0]);
        assert("super"@[0] != "if"@[0]);
        assert("super"@[0] != "nil"@[0]);
        assert("super"@[0] != "or"@[0]);
        assert("super"@[0] != "print"@[0]);
        assert("super"@[0] != "return"@[0]);
        assert(reserved_word(k) == seq!['s', 'u', 'p', 'e', 'r']);
    }
    if k == 12 {
        assert("this"@[0] != "and"@[0]);
        assert("this"@[0] != "class"@[0]);
        assert("this"@[0] != "else"@[0]);
        assert("this"@[0] != "false"@[0]);
        assert("this"@[0] != "for"@[0]);
        assert("this"@[0] != "fun"@[0]);
        assert("this"@[0] != "if"@[0]);
        assert("this"@[0] != "nil"@[0]);
        assert("this"@[0] != "or"@[0]);
        assert("this"@[0] != "print"@[0]);
        assert("this"@[0] != "return"@[0]);
        assert("this"@[0] != "super"@[0]);
        assert(reserved_word(k) == seq!['t', 'h', 'i', 's']);
    }
    if k == 13 {
        assert("true"@[0] != "and"@[0]);
        assert("true"@[0] != "class"@[0]);
        assert("true"@[0] != "else"@[0]);
        assert("true"@[0] != "false"@[0]);
        assert("true"@[0] != "for"@[0]);
        assert("true"@[0] != "fun"@[0]);
        assert("true"@[0] != "if"@[0]);
        assert("true"@[0] != "nil"@[0]);
        assert("true"@[0] != "or"@[0]);
        assert("true"@[0] != "print"@[0]);
        assert("true"@[0] != "return"@[0]);
        assert("true"@[0] != "super"@[0]);
        assert("true"@[1] != "this"@[1]);
        assert(reserved_word(k) == seq!['t', 'r', 'u', 'e']);
    }
    if k == 14 {
        assert("var"@[0] != "and"@[0]);
        assert("var"@[0] != "class"@[0]);
        assert("var"@[0] != "else"@[0]);
        assert("var"@[0] != "false"@[0]);
        assert("var"@[0] != "for"@[0]);
        assert("var"@[0] != "fun"@[0]);
        assert("var"@[0] != "if"@[0]);
        assert("var"@[0] != "nil"@[0]);
        assert("var"@[0] != "or"@[0]);
        assert("var"@[0] != "print"@[0]);
        assert("var"@[0] != "return"@[0]);
        assert("var"@[0] != "super"@[0]);
        assert("var"@[0] != "this"@[0]);
        assert("var"@[0] != "true"@[0]);
        assert(reserved_word(k) == seq!['v', 'a', 'r']);
    }
    if k == 15 {
        assert("while"@[0] != "and"@[0]);
        assert("while"@[0] != "class"@[0]);
        assert("while"@[0] != "else"@[0]);
        assert("while"@[0] != "false"@[0]);
        assert("while"@[0] != "for"@[0]);
        assert("while"@[0] != "fun"@[0]);
        assert("while"@[0] != "if"@[0]);
        assert("while"@[0] != "nil"@[0]);
        assert("while"@[0] != "or"@[0]);
        assert("while"@[0] != "print"@[0]);
        assert("while"@[0] != "return"@[0]);
        assert("while"@[0] != "super"@[0]);
        assert("while"@[0] != "this"@[0]);
        assert("while"@[0] != "true"@[0]);
        assert("while"@[0] != "var"@[0]);
        assert(reserved_word(k) == seq!['w', 'h', 'i', 'l', 'e']);
    }
}

/// Each reserved word, standing where a token starts and not followed by
/// a letter or a digit, is read as one token of its own kind: `print` as
/// `Print`, `while` as `While`, and so on for all sixteen.
pub proof fn law_reserved_words(s: Seq<char>, f: Seq<char>, o: int, k: int)
    requires
        scannable(s),
        0 <= k < 16,
        0 <= o,
        o + reserved_word(k).len() <= s.len(),
        s.subrange(o, o + reserved_word(k).len()) == reserved_word(k),
        o + reserved_word(k).len() == s.len() || !word_char(s[o + reserved_word(k).len()]),
    ensures
        ({
            let ts = scan_spec(s, f, position_of(s, o)).0;
            &&& ts.len() >= 1
            &&& ts[0] == (TokenV { tag: reserved_tag(k), lexeme: reserved_word(k), position: position_of(s, o) })
        }),
{
    let w = reserved_word(k);
    let n = w.len() as int;
    lemma_reserved(k);
    assert forall|m: int| 0 <= m < n implies s[o + m] == #[trigger] w[m] by {
        assert(s.subrange(o, o + n)[m] == s[o + m]);
    }
    assert(is_alpha(w[0]));
    let p = position_of(s, o);
    lemma_position_of_ok(s, o);
    lemma_position_of_ok(s, o + 1);
    let p1 = adv(p);
    assert(p1 == position_of(s, o + 1)) by {
        lemma_step_placed(s, p);
    }
    assert forall|m: int| o + 1 <= m < o + n implies is_alnum(#[trigger] s[m]) by {
        assert(s[m] == w[m - o]);
        assert(is_alpha(w[m - o]));
    }
    lemma_alnum_end_at(s, p1, o + n);
    lemma_scan_token(s, p);
    assert(ws_end(s, p) == p);
    assert(scan_token_spec(s, p).0 == Ok::<TokenTag, crate::parse::lex::err::LexErrTag>(reserved_tag(k)));
}

} // verus!
