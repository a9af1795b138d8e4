use vstd::prelude::*;
use vstd::hash_map::StringHashMap;

use crate::error::AppError;
use crate::text::{char_pos, char_position, chars_of, dec_text, decimal, spec_trim, split_on, split_pieces, string_of, strip_prefix, trim, views};

verus! {

broadcast use vstd::string::group_string_axioms;

/// Maps an API token to the name of the user it belongs to.
pub type Users = StringHashMap<String>;

/// What one line of a users file says.
pub enum UserLine {
    /// An empty line or a comment.
    Skip,
    /// A `user:token` entry: the token, then the user.
    Entry(Seq<char>, Seq<char>),
    /// A line without `:`.
    MissingToken,
    /// A line whose user or token is empty.
    EmptyField,
}

/// How a line of a users file reads: trimmed, empty lines and lines starting
/// with `#` are skipped; otherwise the user stands before the first `:` and
/// the token after it, each trimmed.
pub open spec fn user_line(line: Seq<char>) -> UserLine {
    let t = spec_trim(line);
    if t.len() == 0 || t[0] == '#' {
        UserLine::Skip
    } else {
        match char_pos(t, ':', 0) {
            None => UserLine::MissingToken,
            Some(k) => {
                let user = spec_trim(t.take(k as int));
                let token = spec_trim(t.skip(k + 1int));
                if user.len() == 0 || token.len() == 0 {
                    UserLine::EmptyField
                } else {
                    UserLine::Entry(token, user)
                }
            },
        }
    }
}

/// The error of a users file: whether a token was missing (else a field was
/// empty), and the number of the line, counted from one.
pub struct UsersFileError {
    pub missing_token: bool,
    pub line_no: nat,
}

/// The users that the first `n` lines give, token to user, a later entry for a
/// token replacing an earlier one; or the first bad line among them.
pub open spec fn users_upto(lines: Seq<Seq<char>>, n: nat) -> Result<Map<Seq<char>, Seq<char>>, UsersFileError>
    decreases n,
{
    if n == 0 {
        Ok(Map::empty())
    } else {
        match users_upto(lines, (n - 1) as nat) {
            Err(e) => Err(e),
            Ok(m) => match user_line(lines[n - 1]) {
                UserLine::Skip => Ok(m),
                UserLine::Entry(token, user) => Ok(m.insert(token, user)),
                UserLine::MissingToken => Err(UsersFileError { missing_token: true, line_no: n }),
                UserLine::EmptyField => Err(UsersFileError { missing_token: false, line_no: n }),
            },
        }
    }
}

/// The lines of a users file: its text split at each newline. (A trailing
/// newline adds an empty line, which reads as nothing.)
pub open spec fn file_lines(content: Seq<char>) -> Seq<Seq<char>> {
    split_pieces(content, "\n"@)
}

/// What a users file gives.
pub open spec fn spec_parse_users(content: Seq<char>) -> Result<Map<Seq<char>, Seq<char>>, UsersFileError> {
    users_upto(file_lines(content), file_lines(content).len())
}

proof fn lemma_users_error_stays(lines: Seq<Seq<char>>, n: nat, m: nat)
    requires
        n <= m,
        users_upto(lines, n) is Err,
    ensures
        users_upto(lines, m) == users_upto(lines, n),
    decreases m - n,
{
    if n < m {
        lemma_users_error_stays(lines, n, (m - 1) as nat);
    }
}

/// The message of a users file error.
pub open spec fn users_error_message(e: UsersFileError) -> Seq<char> {
    if e.missing_token {
        "Missing token on line "@ + dec_text(e.line_no)
    } else {
        "Empty username or token on line "@ + dec_text(e.line_no)
    }
}

/// The names of the users, by the view of each.
pub open spec fn user_names(m: Map<Seq<char>, String>) -> Map<Seq<char>, Seq<char>> {
    m.map_values(|v: String| v@)
}

/// Reads the users of a users file: one `user:token` per line; empty lines
/// and lines starting with `#` are ignored.
pub fn parse_users(content: &str) -> (r: Result<Users, AppError>)
    ensures
        match (r, spec_parse_users(content@)) {
            (Ok(users), Ok(m)) => user_names(users@) == m,
            (Err(e), Err(fe)) => e matches AppError::ConfigError(msg) && msg@ == users_error_message(fe),
            _ => false,
        },
{
    let lines = split_on(content, "\n");
    proof {
        reveal_strlit("\n");
    }
    let ghost ls = views(lines@);
    let mut users: Users = StringHashMap::new();
    let mut i: usize = 0;
    proof {
        assert(user_names(users@) =~= Map::empty());
    }
    while i < lines.len()
        invariant
            i <= lines@.len(),
            ls == views(lines@),
            ls == file_lines(content@),
            ls.len() == lines@.len(),
            users_upto(ls, i as nat) == Ok::<Map<Seq<char>, Seq<char>>, UsersFileError>(user_names(users@)),
        decreases lines@.len() - i,
    {
        let ghost before = users@;
        let t = trim(lines[i].as_str());
        let v = chars_of(t.as_str());
        proof {
            assert(ls[i as int] == lines@[i as int]@);
        }
        if v.len() == 0 || v[0] == '#' {
            i = i + 1;
            continue;
        }
        let no = decimal(i as u64 + 1);
        match char_position(&v, ':') {
            None => {
                let mut msg = String::from_str("Missing token on line ");
                msg.append(no.as_str());
                proof {
                    reveal_strlit("Missing token on line ");
                    assert(user_line(ls[i as int]) == UserLine::MissingToken);
                    lemma_users_error_stays(ls, (i + 1) as nat, ls.len());
                }
                return Err(AppError::ConfigError(msg));
            },
            Some(k) => {
                let user_part = string_of(&v, 0, k);
                assert(k < v.len());
                let token_part = string_of(&v, k + 1, v.len());
                proof {
                    assert(v@.subrange(0, k as int) =~= v@.take(k as int));
                    assert(v@.subrange(k + 1, v@.len() as int) =~= v@.skip(k + 1));
                }
                let user = trim(user_part.as_str());
                let token = trim(token_part.as_str());
                if chars_of(user.as_str()).len() == 0 || chars_of(token.as_str()).len() == 0 {
                    let mut msg = String::from_str("Empty username or token on line ");
                    msg.append(no.as_str());
                    proof {
                        reveal_strlit("Empty username or token on line ");
                        assert(user_line(ls[i as int]) == UserLine::EmptyField);
                        lemma_users_error_stays(ls, (i + 1) as nat, ls.len());
                    }
                    return Err(AppError::ConfigError(msg));
                }
                users.insert(token, user);
                proof {
                    assert(user_names(users@) =~= user_names(before).insert(token@, user@));
                }
            },
        }
        i = i + 1;
    }
    Ok(users)
}


/// The token of an `Authorization` value: what follows `Bearer `, or the
/// whole value.
pub open spec fn spec_request_token(value: Seq<char>) -> Seq<char> {
    if "Bearer "@.is_prefix_of(value) {
        value.skip(7)
    } else {
        value
    }
}

/// The token of an `Authorization` value: what follows `Bearer `, or the
/// whole value.
pub fn request_token(value: &str) -> (r: String)
    ensures
        r@ == spec_request_token(value@),
{
    proof {
        reveal_strlit("Bearer ");
    }
    match strip_prefix(value, "Bearer ") {
        Some(t) => t,
        None => value.to_string(),
    }
}

/// How a request fares when authentication is on: refused without an
/// `Authorization` header (`None`), with one that is not text (`Some(None)`),
/// or with a token that no user has; let through otherwise.
pub open spec fn spec_authorize(authorization: Option<Option<Seq<char>>>, users: Map<Seq<char>, String>) -> Result<(), Seq<char>> {
    match authorization {
        None => Err("Missing Authorization header"@),
        Some(None) => Err("Invalid Authorization header"@),
        Some(Some(v)) => if users.contains_key(spec_request_token(v)) {
            Ok(())
        } else {
            Err("Invalid token"@)
        },
    }
}

/// Decides whether a request may reach the protected routes. With
/// authentication off (no users file configured) every request may.
/// `authorization` is the request's `Authorization` header: absent, not text
/// (`Some(None)`), or its text.
pub fn authorize(auth_enabled: bool, authorization: Option<Option<&str>>, users: &Users) -> (r: Result<(), AppError>)
    ensures
        !auth_enabled ==> r is Ok,
        auth_enabled ==> match (r, spec_authorize(match authorization {
            None => None,
            Some(None) => Some(None),
            Some(Some(v)) => Some(Some(v@)),
        }, users@)) {
            (Ok(_), Ok(_)) => true,
            (Err(e), Err(msg)) => e matches AppError::Unauthorized(m) && m@ == msg,
            _ => false,
        },
{
    if !auth_enabled {
        return Ok(());
    }
    match authorization {
        None => {
            proof {
                reveal_strlit("Missing Authorization header");
            }
            Err(AppError::Unauthorized(String::from_str("Missing Authorization header")))
        },
        Some(None) => {
            proof {
                reveal_strlit("Invalid Authorization header");
            }
            Err(AppError::Unauthorized(String::from_str("Invalid Authorization header")))
        },
        Some(Some(v)) => {
            let token = request_token(v);
            if users.contains_key(token.as_str()) {
                Ok(())
            } else {
                proof {
                    reveal_strlit("Invalid token");
                }
                Err(AppError::Unauthorized(String::from_str("Invalid token")))
            }
        },
    }
}

} // verus!
