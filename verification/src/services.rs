use vstd::prelude::*;

use std::sync::Arc;

verus! {

/// The repository abstraction the services depend on.
pub trait UserRepository {
    /// The user this repository finds.
    spec fn found_user(&self) -> Seq<char>;

    /// Finds the user.
    fn find_user(&self) -> (r: String)
        ensures
            r@ == self.found_user(),
    ;
}

/// A repository backed by Postgres.
pub struct PostgresUserRepository;

impl UserRepository for PostgresUserRepository {
    open spec fn found_user(&self) -> Seq<char> {
        "user from postgres"@
    }

    fn find_user(&self) -> (r: String) {
        String::from_str("user from postgres")
    }
}

/// A service that greets through its repository, which the container
/// resolves to the single implementor of `UserRepository`.
pub struct UserService<R: UserRepository> {
    pub repo: Arc<R>,
}

/// A service that depends on the same repository.
pub struct EmailService<R: UserRepository> {
    pub repo: Arc<R>,
}

impl<R: UserRepository> UserService<R> {
    /// A greeting that names the user the repository finds.
    pub fn hello(&self) -> (r: String)
        ensures
            r@ == "hello from UserService \u{2014} "@ + self.repo.found_user(),
    {
        let user = self.repo.find_user();
        let mut r = String::from_str("hello from UserService \u{2014} ");
        r.append(user.as_str());
        r
    }
}

} // verus!
