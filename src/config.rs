//! Credentials and where they come from.

use std::path::PathBuf;
use vstd::prelude::*;

verus! {

broadcast use vstd::string::group_string_axioms;

#[verifier::external_type_specification]
#[verifier::external_body]
pub struct ExPathBuf(PathBuf);

/// Everything needed to sign a call on behalf of a user.
pub struct Config {
    pub api_key: String,
    pub api_secret: String,
    pub access_token: String,
    pub access_token_secret: String,
}

/// What a completed login yields, for the caller to store.
pub struct Credentials {
    pub access_token: String,
    pub access_token_secret: String,
    pub screen_name: String,
}

/// Application keys as the user set them up, with optional user tokens.
pub struct ApiKeys {
    pub api_key: String,
    pub api_secret: String,
    pub access_token: Option<String>,
    pub access_token_secret: Option<String>,
}

/// Relies on `dirs::config_dir`: the user's configuration directory, where
/// the platform has one.
#[verifier::external_body]
fn user_config_dir() -> Option<PathBuf> {
    dirs::config_dir()
}

/// Relies on `Path::join`: `name` appended to `base` as a path component.
#[verifier::external_body]
fn join_path(base: &PathBuf, name: &str) -> PathBuf {
    base.join(name)
}

/// The directory of this program's files: `xcli` under the user's
/// configuration directory, or nothing where the platform has none.
fn config_dir() -> Option<PathBuf> {
    match user_config_dir() {
        Some(base) => Some(join_path(&base, "xcli")),
        None => None,
    }
}

/// Where the login's credentials are kept: `credentials.json` in the
/// program's configuration directory, which the platform may lack.
pub fn credentials_path() -> Option<PathBuf> {
    match config_dir() {
        Some(dir) => Some(join_path(&dir, "credentials.json")),
        None => None,
    }
}

/// Where the application keys are kept: `keys.json` in the program's
/// configuration directory, which the platform may lack.
pub fn keys_path() -> Option<PathBuf> {
    match config_dir() {
        Some(dir) => Some(join_path(&dir, "keys.json")),
        None => None,
    }
}

/// The view of an optional string.
pub open spec fn opt_string(o: Option<String>) -> Option<Seq<char>> {
    match o {
        Some(s) => Some(s@),
        None => None,
    }
}

/// The first of two optional values that is there.
pub open spec fn first_of(a: Option<Seq<char>>, b: Option<Seq<char>>) -> Option<Seq<char>> {
    match a {
        Some(x) => Some(x),
        None => b,
    }
}

/// Message when no application key is known.
pub const MISSING_API_KEY: &'static str = "X_API_KEY not set. Run `xcli auth setup` or set it in .env";

/// Message when no application secret is known.
pub const MISSING_API_SECRET: &'static str = "X_API_SECRET not set. Run `xcli auth setup` or set it in .env";

/// Message when no user token is known.
pub const MISSING_ACCESS_TOKEN: &'static str = "Not logged in. Run `xcli auth login` or set X_ACCESS_TOKEN in .env";

/// Message when no user token secret is known.
pub const MISSING_ACCESS_TOKEN_SECRET: &'static str =
    "Not logged in. Run `xcli auth login` or set X_ACCESS_TOKEN_SECRET in .env";

/// The view of a configuration: key, secret, token, token secret.
pub open spec fn config_view(c: Config) -> (Seq<char>, Seq<char>, Seq<char>, Seq<char>) {
    (c.api_key@, c.api_secret@, c.access_token@, c.access_token_secret@)
}

/// Which configuration the sources give, by priority: the application key and
/// secret from the environment, else from the keys file; the user tokens from
/// the stored login, else from the keys file when it holds both, else from the
/// environment.
pub open spec fn resolved_config(
    env_api_key: Option<Seq<char>>,
    env_api_secret: Option<Seq<char>>,
    keys: Option<ApiKeys>,
    creds: Option<Credentials>,
    env_access_token: Option<Seq<char>>,
    env_access_token_secret: Option<Seq<char>>,
) -> Result<(Seq<char>, Seq<char>, Seq<char>, Seq<char>), Seq<char>> {
    let key = first_of(env_api_key, match keys { Some(k) => Some(k.api_key@), None => None });
    let secret = first_of(env_api_secret, match keys { Some(k) => Some(k.api_secret@), None => None });
    if key is None {
        Err(MISSING_API_KEY@)
    } else if secret is None {
        Err(MISSING_API_SECRET@)
    } else if creds is Some {
        Ok((key->0, secret->0, creds->0.access_token@, creds->0.access_token_secret@))
    } else if keys is Some && keys->0.access_token is Some && keys->0.access_token_secret is Some {
        Ok((key->0, secret->0, keys->0.access_token->0@, keys->0.access_token_secret->0@))
    } else if env_access_token is None {
        Err(MISSING_ACCESS_TOKEN@)
    } else if env_access_token_secret is None {
        Err(MISSING_ACCESS_TOKEN_SECRET@)
    } else {
        Ok((key->0, secret->0, env_access_token->0, env_access_token_secret->0))
    }
}

/// Which application key and secret the sources give: both from the keys
/// file when there is one, else from the environment.
pub open spec fn resolved_consumer(
    keys: Option<ApiKeys>,
    env_api_key: Option<Seq<char>>,
    env_api_secret: Option<Seq<char>>,
) -> Result<(Seq<char>, Seq<char>), Seq<char>> {
    if keys is Some {
        Ok((keys->0.api_key@, keys->0.api_secret@))
    } else if env_api_key is None {
        Err(MISSING_API_KEY@)
    } else if env_api_secret is None {
        Err(MISSING_API_SECRET@)
    } else {
        Ok((env_api_key->0, env_api_secret->0))
    }
}

impl Config {
    /// Picks the configuration out of what the environment and the stored
    /// files hold, by the priority of `resolved_config`.
    pub fn resolve(
        env_api_key: Option<String>,
        env_api_secret: Option<String>,
        keys: Option<ApiKeys>,
        creds: Option<Credentials>,
        env_access_token: Option<String>,
        env_access_token_secret: Option<String>,
    ) -> (r: Result<Config, String>)
        ensures
            match r {
                Ok(c) => resolved_config(
                    opt_string(env_api_key),
                    opt_string(env_api_secret),
                    keys,
                    creds,
                    opt_string(env_access_token),
                    opt_string(env_access_token_secret),
                ) == Ok::<_, Seq<char>>(config_view(c)),
                Err(e) => resolved_config(
                    opt_string(env_api_key),
                    opt_string(env_api_secret),
                    keys,
                    creds,
                    opt_string(env_access_token),
                    opt_string(env_access_token_secret),
                ) == Err::<(Seq<char>, Seq<char>, Seq<char>, Seq<char>), _>(e@),
            },
    {
        let api_key = match env_api_key {
            Some(k) => k,
            None => match &keys {
                Some(k) => k.api_key.clone(),
                None => return Err(MISSING_API_KEY.to_owned()),
            },
        };
        let api_secret = match env_api_secret {
            Some(s) => s,
            None => match &keys {
                Some(k) => k.api_secret.clone(),
                None => return Err(MISSING_API_SECRET.to_owned()),
            },
        };
        if let Some(c) = creds {
            return Ok(
                Config {
                    api_key,
                    api_secret,
                    access_token: c.access_token,
                    access_token_secret: c.access_token_secret,
                },
            );
        }
        if let Some(k) = &keys {
            if let (Some(at), Some(ats)) = (&k.access_token, &k.access_token_secret) {
                return Ok(
                    Config {
                        api_key,
                        api_secret,
                        access_token: at.clone(),
                        access_token_secret: ats.clone(),
                    },
                );
            }
        }
        let access_token = match env_access_token {
            Some(t) => t,
            None => return Err(MISSING_ACCESS_TOKEN.to_owned()),
        };
        let access_token_secret = match env_access_token_secret {
            Some(t) => t,
            None => return Err(MISSING_ACCESS_TOKEN_SECRET.to_owned()),
        };
        Ok(Config { api_key, api_secret, access_token, access_token_secret })
    }

    /// Picks the application key and secret, by the priority of
    /// `resolved_consumer`.
    pub fn resolve_consumer(
        keys: Option<ApiKeys>,
        env_api_key: Option<String>,
        env_api_secret: Option<String>,
    ) -> (r: Result<(String, String), String>)
        ensures
            match r {
                Ok(p) => resolved_consumer(keys, opt_string(env_api_key), opt_string(env_api_secret))
                    == Ok::<_, Seq<char>>((p.0@, p.1@)),
                Err(e) => resolved_consumer(keys, opt_string(env_api_key), opt_string(env_api_secret))
                    == Err::<(Seq<char>, Seq<char>), _>(e@),
            },
    {
        if let Some(k) = keys {
            return Ok((k.api_key, k.api_secret));
        }
        let api_key = match env_api_key {
            Some(k) => k,
            None => return Err(MISSING_API_KEY.to_owned()),
        };
        let api_secret = match env_api_secret {
            Some(s) => s,
            None => return Err(MISSING_API_SECRET.to_owned()),
        };
        Ok((api_key, api_secret))
    }
}

} // verus!
