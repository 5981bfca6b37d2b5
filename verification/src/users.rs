//! The users who may talk to the database, and how they prove who they are.

use vstd::prelude::*;

use crate::encoding::same_text;

verus! {

/// How a user proves who they are.
#[derive(Debug, PartialEq)]
pub enum AuthenticationMethod {
    /// Nothing is asked of the user.
    Open,
    /// The user gives a password; kept is the SHA-256 digest of the
    /// password in lower-case hexadecimal digits.
    Password(String),
}

/// A user of the database.
#[derive(Debug, PartialEq)]
pub struct User {
    pub name: String,
    pub auth_method: AuthenticationMethod,
}

/// Why a user was turned away.
#[derive(Clone, Copy, Debug, PartialEq, Eq, Structural)]
pub enum AuthenticationError {
    /// No user of that name is known.
    UnknownUser,
    /// The user has a password and none was given.
    MissingPassword,
    /// The password given is not the user's.
    WrongPassword,
}

/// The SHA-256 digest of the data.
pub uninterp spec fn sha256_of(data: Seq<u8>) -> Seq<u8>;

/// `sha2::Sha256::digest`: the SHA-256 digest of the data, which has 32 bytes.
#[verifier::external_body]
fn sha256(data: &[u8]) -> (digest: Vec<u8>)
    ensures
        digest@ == sha256_of(data@),
        digest@.len() == 32,
{
    <sha2::Sha256 as sha2::Digest>::digest(data).to_vec()
}

/// The hexadecimal digit of a number below 16, in lower case.
pub open spec fn hex_digit(n: int) -> char {
    if n < 10 {
        (0x30 + n) as char
    } else {
        (0x61 + n - 10) as char
    }
}

/// The bytes in hexadecimal: two lower-case digits to a byte, the high digit first.
pub open spec fn hex_text(data: Seq<u8>) -> Seq<char> {
    Seq::new(
        2 * data.len(),
        |j: int|
            hex_digit(
                if j % 2 == 0 {
                    data[j / 2] as int / 16
                } else {
                    data[j / 2] as int % 16
                },
            ),
    )
}

/// `hex::encode`: the bytes in hexadecimal, two lower-case digits to a byte.
#[verifier::external_body]
fn hex_encode(data: &[u8]) -> (text: String)
    ensures
        text@ == hex_text(data@),
{
    hex::encode(data)
}

/// The form in which a password is kept.
pub open spec fn password_hash(password: Seq<char>) -> Seq<char> {
    hex_text(sha256_of(vstd::utf8::encode_utf8(password)))
}

/// The SHA-256 digest of a text in lower-case hexadecimal digits.
pub fn hash_sha256(text: &str) -> (hash: String)
    ensures
        hash@ == password_hash(text@),
        hash@.len() == 64,
{
    let digest = sha256(text.as_bytes());
    hex_encode(digest.as_slice())
}

/// What comes of a user's attempt to prove who they are: a user without a
/// password is let in; a user with one is let in on giving the form in
/// which the password is kept.
pub open spec fn admits(method: AuthenticationMethod, password: Option<Seq<char>>) -> Result<
    (),
    AuthenticationError,
> {
    match method {
        AuthenticationMethod::Open => Ok(()),
        AuthenticationMethod::Password(kept) => match password {
            None => Err(AuthenticationError::MissingPassword),
            Some(given) => if kept@ == given {
                Ok(())
            } else {
                Err(AuthenticationError::WrongPassword)
            },
        },
    }
}

impl User {
    /// A new user: without a password nothing is asked of them, with one
    /// the digest of the password is kept.
    pub fn create(name: &str, password: Option<&str>) -> (user: User)
        ensures
            user.name@ == name@,
            match password {
                None => user.auth_method == AuthenticationMethod::Open,
                Some(text) => user.auth_method matches AuthenticationMethod::Password(kept)
                    && kept@ == password_hash(text@),
            },
    {
        let auth_method = match password {
            None => AuthenticationMethod::Open,
            Some(text) => AuthenticationMethod::Password(hash_sha256(text)),
        };
        User { name: name.to_owned(), auth_method }
    }

    /// Lets in the user as stored, or says why not. The password is given
    /// in the form in which it is kept, the hexadecimal SHA-256 digest.
    pub fn authenticate(stored: Option<User>, password: Option<&str>) -> (r: Result<
        User,
        AuthenticationError,
    >)
        ensures
            match stored {
                None => r == Err::<User, AuthenticationError>(AuthenticationError::UnknownUser),
                Some(user) => match admits(
                    user.auth_method,
                    match password {
                        Some(text) => Some(text@),
                        None => None,
                    },
                ) {
                    Ok(()) => r == Ok::<User, AuthenticationError>(user),
                    Err(e) => r == Err::<User, AuthenticationError>(e),
                },
            },
    {
        match stored {
            None => Err(AuthenticationError::UnknownUser),
            Some(user) => {
                let admitted = match &user.auth_method {
                    AuthenticationMethod::Open => Ok(()),
                    AuthenticationMethod::Password(kept) => match password {
                        None => Err(AuthenticationError::MissingPassword),
                        Some(given) => if same_text(kept.as_str(), given) {
                            Ok(())
                        } else {
                            Err(AuthenticationError::WrongPassword)
                        },
                    },
                };
                match admitted {
                    Ok(()) => Ok(user),
                    Err(e) => Err(e),
                }
            },
        }
    }
}

} // verus!
