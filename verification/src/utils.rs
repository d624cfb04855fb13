//! The builder of test directories and the built-in ignore policy.

use vstd::prelude::*;

verus! {

/// The built-in ignore globs seeded into the global ignore file on first
/// use: binary media, archives, native artifacts, lockfiles and caches,
/// VCS and editor state, secrets, fonts and miscellaneous noise.
pub fn global_ignore_patterns() -> (r: Vec<String>)
    ensures
        r@.len() == 70,
        r@[0]@ == "**/.DS_Store"@,
        r@[1]@ == "**/package-lock.json"@,
        r@[2]@ == "*.lock"@,
        r@[3]@ == "*.log"@,
        r@[4]@ == "*.ttf"@,
        r@[5]@ == "*.png"@,
        r@[6]@ == "*.jpg"@,
        r@[7]@ == "*.jpeg"@,
        r@[8]@ == "*.gif"@,
        r@[9]@ == "*.mp4"@,
        r@[10]@ == "*.svg"@,
        r@[11]@ == "*.ico"@,
        r@[12]@ == "*.pdf"@,
        r@[13]@ == "*.zip"@,
        r@[14]@ == "*.gz"@,
        r@[15]@ == "*.tar"@,
        r@[16]@ == "*.tgz"@,
        r@[17]@ == "*.rar"@,
        r@[18]@ == "*.7z"@,
        r@[19]@ == "*.exe"@,
        r@[20]@ == "*.dll"@,
        r@[21]@ == "*.obj"@,
        r@[22]@ == "*.o"@,
        r@[23]@ == "*.a"@,
        r@[24]@ == "*.lib"@,
        r@[25]@ == "*.so"@,
        r@[26]@ == "*.dylib"@,
        r@[27]@ == "*.ncb"@,
        r@[28]@ == "*.sdf"@,
        r@[29]@ == "*.woff"@,
        r@[30]@ == "*.woff2"@,
        r@[31]@ == "*.eot"@,
        r@[32]@ == "*.cur"@,
        r@[33]@ == "*.avi"@,
        r@[34]@ == "*.mpg"@,
        r@[35]@ == "*.mpeg"@,
        r@[36]@ == "*.mov"@,
        r@[37]@ == "*.mp3"@,
        r@[38]@ == "*.mkv"@,
        r@[39]@ == "*.webm"@,
        r@[40]@ == "*.jar"@,
        r@[41]@ == "*.onnx"@,
        r@[42]@ == "*.tmp"@,
        r@[43]@ == "*.swp"@,
        r@[44]@ == "*.bak"@,
        r@[45]@ == "*.dmp"@,
        r@[46]@ == "**/node_modules/"@,
        r@[47]@ == "**/.git"@,
        r@[48]@ == "*.class"@,
        r@[49]@ == "*.pyc"@,
        r@[50]@ == "*.pyo"@,
        r@[51]@ == "*.whl"@,
        r@[52]@ == "*.egg-info"@,
        r@[53]@ == "*.db"@,
        r@[54]@ == "*.sql"@,
        r@[55]@ == "*.sqlite"@,
        r@[56]@ == "*.sqlite3"@,
        r@[57]@ == "**/__pycache__/"@,
        r@[58]@ == "**/.pytest_cache/"@,
        r@[59]@ == "**/.env"@,
        r@[60]@ == "*.pem"@,
        r@[61]@ == "*.cert"@,
        r@[62]@ == "*.key"@,
        r@[63]@ == "*.csr"@,
        r@[64]@ == "**/.idea/"@,
        r@[65]@ == "**/.vscode/"@,
        r@[66]@ == "**/.history/"@,
        r@[67]@ == "*.sass-cache"@,
        r@[68]@ == "*.scssc"@,
        r@[69]@ == "*.parquet"@,
{
    let mut out: Vec<String> = Vec::new();
    out.push("**/.DS_Store".to_owned());
    out.push("**/package-lock.json".to_owned());
    out.push("*.lock".to_owned());
    out.push("*.log".to_owned());
    out.push("*.ttf".to_owned());
    out.push("*.png".to_owned());
    out.push("*.jpg".to_owned());
    out.push("*.jpeg".to_owned());
    out.push("*.gif".to_owned());
    out.push("*.mp4".to_owned());
    out.push("*.svg".to_owned());
    out.push("*.ico".to_owned());
    out.push("*.pdf".to_owned());
    out.push("*.zip".to_owned());
    out.push("*.gz".to_owned());
    out.push("*.tar".to_owned());
    out.push("*.tgz".to_owned());
    out.push("*.rar".to_owned());
    out.push("*.7z".to_owned());
    out.push("*.exe".to_owned());
    out.push("*.dll".to_owned());
    out.push("*.obj".to_owned());
    out.push("*.o".to_owned());
    out.push("*.a".to_owned());
    out.push("*.lib".to_owned());
    out.push("*.so".to_owned());
    out.push("*.dylib".to_owned());
    out.push("*.ncb".to_owned());
    out.push("*.sdf".to_owned());
    out.push("*.woff".to_owned());
    out.push("*.woff2".to_owned());
    out.push("*.eot".to_owned());
    out.push("*.cur".to_owned());
    out.push("*.avi".to_owned());
    out.push("*.mpg".to_owned());
    out.push("*.mpeg".to_owned());
    out.push("*.mov".to_owned());
    out.push("*.mp3".to_owned());
    out.push("*.mkv".to_owned());
    out.push("*.webm".to_owned());
    out.push("*.jar".to_owned());
    out.push("*.onnx".to_owned());
    out.push("*.tmp".to_owned());
    out.push("*.swp".to_owned());
    out.push("*.bak".to_owned());
    out.push("*.dmp".to_owned());
    out.push("**/node_modules/".to_owned());
    out.push("**/.git".to_owned());
    out.push("*.class".to_owned());
    out.push("*.pyc".to_owned());
    out.push("*.pyo".to_owned());
    out.push("*.whl".to_owned());
    out.push("*.egg-info".to_owned());
    out.push("*.db".to_owned());
    out.push("*.sql".to_owned());
    out.push("*.sqlite".to_owned());
    out.push("*.sqlite3".to_owned());
    out.push("**/__pycache__/".to_owned());
    out.push("**/.pytest_cache/".to_owned());
    out.push("**/.env".to_owned());
    out.push("*.pem".to_owned());
    out.push("*.cert".to_owned());
    out.push("*.key".to_owned());
    out.push("*.csr".to_owned());
    out.push("**/.idea/".to_owned());
    out.push("**/.vscode/".to_owned());
    out.push("**/.history/".to_owned());
    out.push("*.sass-cache".to_owned());
    out.push("*.scssc".to_owned());
    out.push("*.parquet".to_owned());
    proof {
        reveal_strlit("**/.DS_Store");
        reveal_strlit("**/package-lock.json");
        reveal_strlit("*.lock");
        reveal_strlit("*.log");
        reveal_strlit("*.ttf");
        reveal_strlit("*.png");
        reveal_strlit("*.jpg");
        reveal_strlit("*.jpeg");
        reveal_strlit("*.gif");
        reveal_strlit("*.mp4");
        reveal_strlit("*.svg");
        reveal_strlit("*.ico");
        reveal_strlit("*.pdf");
        reveal_strlit("*.zip");
        reveal_strlit("*.gz");
        reveal_strlit("*.tar");
        reveal_strlit("*.tgz");
        reveal_strlit("*.rar");
        reveal_strlit("*.7z");
        reveal_strlit("*.exe");
        reveal_strlit("*.dll");
        reveal_strlit("*.obj");
        reveal_strlit("*.o");
        reveal_strlit("*.a");
        reveal_strlit("*.lib");
        reveal_strlit("*.so");
        reveal_strlit("*.dylib");
        reveal_strlit("*.ncb");
        reveal_strlit("*.sdf");
        reveal_strlit("*.woff");
        reveal_strlit("*.woff2");
        reveal_strlit("*.eot");
        reveal_strlit("*.cur");
        reveal_strlit("*.avi");
        reveal_strlit("*.mpg");
        reveal_strlit("*.mpeg");
        reveal_strlit("*.mov");
        reveal_strlit("*.mp3");
        reveal_strlit("*.mkv");
        reveal_strlit("*.webm");
        reveal_strlit("*.jar");
        reveal_strlit("*.onnx");
        reveal_strlit("*.tmp");
        reveal_strlit("*.swp");
        reveal_strlit("*.bak");
        reveal_strlit("*.dmp");
        reveal_strlit("**/node_modules/");
        reveal_strlit("**/.git");
        reveal_strlit("*.class");
        reveal_strlit("*.pyc");
        reveal_strlit("*.pyo");
        reveal_strlit("*.whl");
        reveal_strlit("*.egg-info");
        reveal_strlit("*.db");
        reveal_strlit("*.sql");
        reveal_strlit("*.sqlite");
        reveal_strlit("*.sqlite3");
        reveal_strlit("**/__pycache__/");
        reveal_strlit("**/.pytest_cache/");
        reveal_strlit("**/.env");
        reveal_strlit("*.pem");
        reveal_strlit("*.cert");
        reveal_strlit("*.key");
        reveal_strlit("*.csr");
        reveal_strlit("**/.idea/");
        reveal_strlit("**/.vscode/");
        reveal_strlit("**/.history/");
        reveal_strlit("*.sass-cache");
        reveal_strlit("*.scssc");
        reveal_strlit("*.parquet");
    }
    out
}

/// A recipe for a test workspace: relative paths and the contents to put at
/// them.
pub struct TempDirBuilder {
    files: Vec<(String, String)>,
}

/// The views of the recipe's path / content pairs.
pub open spec fn file_views(s: Seq<(String, String)>) -> Seq<(Seq<char>, Seq<char>)> {
    s.map_values(|p: (String, String)| (p.0@, p.1@))
}

impl TempDirBuilder {
    /// The recipe's files, in the order added.
    pub closed spec fn spec_files(&self) -> Seq<(Seq<char>, Seq<char>)> {
        file_views(self.files@)
    }

    /// An empty recipe.
    pub fn new() -> (r: TempDirBuilder)
        ensures
            r.spec_files() == Seq::<(Seq<char>, Seq<char>)>::empty(),
    {
        let r = TempDirBuilder { files: Vec::new() };
        proof {
            assert(r.spec_files() =~= Seq::<(Seq<char>, Seq<char>)>::empty());
        }
        r
    }

    /// Add one file to the recipe.
    pub fn add(self, path: &str, content: &str) -> (r: TempDirBuilder)
        ensures
            r.spec_files() == self.spec_files().push((path@, content@)),
    {
        let mut files = self.files;
        files.push((path.to_owned(), content.to_owned()));
        let r = TempDirBuilder { files };
        proof {
            assert(r.spec_files() =~= self.spec_files().push((path@, content@)));
        }
        r
    }

    /// The recipe's files, for whoever materializes the directory.
    pub fn files(&self) -> (r: &Vec<(String, String)>)
        ensures
            file_views(r@) == self.spec_files(),
    {
        &self.files
    }
}

impl Default for TempDirBuilder {
    /// An empty recipe.
    fn default() -> (r: TempDirBuilder)
        ensures
            r.spec_files() == Seq::<(Seq<char>, Seq<char>)>::empty(),
    {
        TempDirBuilder::new()
    }
}

} // verus!
